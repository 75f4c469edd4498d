//! The order of keys: byte by byte, a key before every longer key that it is a prefix of.
use vstd::prelude::*;

verus! {

/// Whether `a` comes before `b` in lexicographic order.
#[verifier::opaque]
pub open spec fn precedes(a: Seq<u8>, b: Seq<u8>) -> bool
    decreases a.len(),
{
    if b.len() == 0 {
        false
    } else if a.len() == 0 {
        true
    } else if a[0] != b[0] {
        a[0] < b[0]
    } else {
        precedes(a.skip(1), b.skip(1))
    }
}

/// Whether each key comes before the next.
pub open spec fn ascending(keys: Seq<Seq<u8>>) -> bool {
    forall|i: int, j: int| 0 <= i < j < keys.len() ==> precedes(#[trigger] keys[i], #[trigger] keys[j])
}

/// No key comes before itself.
pub proof fn lemma_irreflexive(a: Seq<u8>)
    ensures
        !precedes(a, a),
    decreases a.len(),
{
    reveal(precedes);
    if a.len() > 0 {
        lemma_irreflexive(a.skip(1));
    }
}

/// The order is transitive.
pub proof fn lemma_transitive(a: Seq<u8>, b: Seq<u8>, c: Seq<u8>)
    requires
        precedes(a, b),
        precedes(b, c),
    ensures
        precedes(a, c),
    decreases a.len(),
{
    reveal(precedes);
    if a.len() > 0 && a[0] == b[0] && b[0] == c[0] {
        lemma_transitive(a.skip(1), b.skip(1), c.skip(1));
    }
}

/// Of two keys that do not equal each other, exactly one comes before the other.
pub proof fn lemma_total(a: Seq<u8>, b: Seq<u8>)
    ensures
        a == b || precedes(a, b) || precedes(b, a),
        precedes(a, b) ==> a != b && !precedes(b, a),
    decreases a.len(),
{
    reveal(precedes);
    if a.len() > 0 && b.len() > 0 && a[0] == b[0] {
        lemma_total(a.skip(1), b.skip(1));
        if a.skip(1) == b.skip(1) {
            assert(a =~= seq![a[0]] + a.skip(1));
            assert(b =~= seq![b[0]] + b.skip(1));
        }
    } else if a.len() == 0 && b.len() == 0 {
        assert(a =~= b);
    }
    if a == b {
        lemma_irreflexive(a);
    }
}

/// Where a key lies in relation to another.
pub enum Place {
    Before,
    Same,
    After,
}

/// Finds where `a` lies in relation to `b`.
pub fn place(a: &Vec<u8>, b: &Vec<u8>) -> (result: Place)
    ensures
        match result {
            Place::Before => precedes(a@, b@),
            Place::Same => a@ == b@,
            Place::After => precedes(b@, a@),
        },
{
    let mut i: usize = 0;
    assert(a@.skip(0) =~= a@);
    assert(b@.skip(0) =~= b@);
    while i < a.len() && i < b.len() && a[i] == b[i]
        invariant
            i <= a.len(),
            i <= b.len(),
            a@.take(i as int) == b@.take(i as int),
            precedes(a@.skip(i as int), b@.skip(i as int)) ==> precedes(a@, b@),
            precedes(b@.skip(i as int), a@.skip(i as int)) ==> precedes(b@, a@),
        decreases a.len() - i,
    {
        proof {
            reveal(precedes);
            assert(a@.skip(i as int).skip(1) =~= a@.skip(i + 1));
            assert(b@.skip(i as int).skip(1) =~= b@.skip(i + 1));
            assert(a@.take(i + 1) =~= a@.take(i as int).push(a@[i as int]));
            assert(b@.take(i + 1) =~= b@.take(i as int).push(b@[i as int]));
        }
        i += 1;
    }
    proof {
        reveal(precedes);
        assert(a@.take(i as int) + a@.skip(i as int) =~= a@);
        assert(b@.take(i as int) + b@.skip(i as int) =~= b@);
    }
    if i < a.len() {
        if i < b.len() {
            if a[i] < b[i] {
                Place::Before
            } else {
                Place::After
            }
        } else {
            Place::After
        }
    } else if i < b.len() {
        Place::Before
    } else {
        assert(a@.skip(i as int) =~= b@.skip(i as int));
        Place::Same
    }
}

/// The bytes of each vector.
pub open spec fn views(vectors: Seq<Vec<u8>>) -> Seq<Seq<u8>> {
    Seq::new(vectors.len(), |i: int| vectors[i]@)
}

/// Whether `index` is where `key` would have to be inserted to keep the keys in order.
pub open spec fn gap_at(keys: Seq<Seq<u8>>, key: Seq<u8>, index: int) -> bool {
    &&& 0 <= index <= keys.len()
    &&& forall|i: int| 0 <= i < index ==> precedes(#[trigger] keys[i], key)
    &&& forall|i: int| index <= i < keys.len() ==> precedes(key, #[trigger] keys[i])
}

/// Searches for `key`, by bisection. `Ok` holds the index of the key, and `Err`, if the key is
/// not there, the index at which it could be inserted.
pub fn search(keys: &Vec<Vec<u8>>, key: &Vec<u8>) -> (result: Result<usize, usize>)
    requires
        ascending(views(keys@)),
    ensures
        match result {
            Ok(index) => index < keys@.len() && views(keys@)[index as int] == key@,
            Err(index) => gap_at(views(keys@), key@, index as int),
        },
{
    let ghost all = views(keys@);
    let mut low: usize = 0;
    let mut high: usize = keys.len();
    while low < high
        invariant
            low <= high <= keys.len(),
            all == views(keys@),
            ascending(all),
            forall|i: int| 0 <= i < low ==> precedes(#[trigger] all[i], key@),
            forall|i: int| high <= i < all.len() ==> precedes(key@, #[trigger] all[i]),
        decreases high - low,
    {
        let middle: usize = low + (high - low) / 2;
        assert(all[middle as int] == keys@[middle as int]@);
        match place(&keys[middle], key) {
            Place::Same => {
                return Ok(middle);
            },
            Place::Before => {
                assert forall|i: int| 0 <= i < middle + 1 implies precedes(
                    #[trigger] all[i],
                    key@,
                ) by {
                    if i < middle {
                        lemma_transitive(all[i], all[middle as int], key@);
                    }
                }
                low = middle + 1;
            },
            Place::After => {
                assert forall|i: int| middle <= i < all.len() implies precedes(
                    key@,
                    #[trigger] all[i],
                ) by {
                    if i > middle {
                        lemma_transitive(key@, all[middle as int], all[i]);
                    }
                }
                high = middle;
            },
        }
    }
    Err(low)
}

/// Where a gap is after another key was put into it.
pub proof fn lemma_gap_split(keys: Seq<Seq<u8>>, middle: Seq<u8>, key: Seq<u8>, i: int, j: int)
    requires
        gap_at(keys, key, i),
        gap_at(keys.insert(i, middle), key, j),
    ensures
        j == i || j == i + 1,
{
    let wider = keys.insert(i, middle);
    if j < i {
        assert(wider[j] == keys[j]);
        lemma_total(keys[j], key);
    } else if j > i + 1 {
        assert(wider[j - 1] == keys[j - 2]);
        lemma_total(key, keys[j - 2]);
    }
}

/// There is only one gap for a key.
pub proof fn lemma_gap_unique(keys: Seq<Seq<u8>>, key: Seq<u8>, i: int, j: int)
    requires
        gap_at(keys, key, i),
        gap_at(keys, key, j),
    ensures
        i == j,
{
    if i < j {
        lemma_total(keys[i], key);
    } else if j < i {
        lemma_total(keys[j], key);
    }
}

/// Where a key that is not among `keys` belongs.
pub open spec fn gap(keys: Seq<Seq<u8>>, key: Seq<u8>) -> int {
    choose|i: int| gap_at(keys, key, i)
}

/// The gap for a key is where it was found.
pub proof fn lemma_gap_is(keys: Seq<Seq<u8>>, key: Seq<u8>, i: int)
    requires
        gap_at(keys, key, i),
    ensures
        gap(keys, key) == i,
        !keys.contains(key),
{
    lemma_gap_unique(keys, key, i, gap(keys, key));
    lemma_irreflexive(key);
    if keys.contains(key) {
        let j = choose|j: int| 0 <= j < keys.len() && keys[j] == key;
        assert(precedes(keys[j], key) || precedes(key, keys[j]));
    }
}

/// A key stands at one place only.
pub proof fn lemma_index_is(keys: Seq<Seq<u8>>, i: int)
    requires
        ascending(keys),
        0 <= i < keys.len(),
    ensures
        keys.contains(keys[i]),
        keys.index_of(keys[i]) == i,
{
    let j = keys.index_of(keys[i]);
    assert(0 <= j < keys.len() && keys[j] == keys[i]);
    lemma_irreflexive(keys[i]);
    if i < j {
        assert(precedes(keys[i], keys[j]));
    } else if j < i {
        assert(precedes(keys[j], keys[i]));
    }
}

/// What two keys have in common at their front does not matter.
pub proof fn lemma_common_front(front: Seq<u8>, a: Seq<u8>, b: Seq<u8>)
    ensures
        precedes(front + a, front + b) == precedes(a, b),
    decreases front.len(),
{
    if front.len() == 0 {
        assert(front + a =~= a);
        assert(front + b =~= b);
    } else {
        reveal(precedes);
        lemma_common_front(front.skip(1), a, b);
        assert((front + a).skip(1) =~= front.skip(1) + a);
        assert((front + b).skip(1) =~= front.skip(1) + b);
    }
}

/// Keys that differ in their first byte are in the order of that byte, and no key comes before the
/// empty key.
pub proof fn lemma_front(x: u8, a: Seq<u8>, y: u8, b: Seq<u8>)
    ensures
        x != y ==> (precedes(seq![x] + a, seq![y] + b) <==> x < y),
        precedes(seq![], seq![x] + a),
        !precedes(a, seq![]),
{
    reveal(precedes);
}

} // verus!
