# stable_btree

A map from byte strings to byte strings, kept as a B-tree in a growable memory, and verified with
Verus.

`StableBTreeMap::new` makes an empty map in a memory, `StableBTreeMap::load` finds the map that a
memory holds. `insert`, `get` and `remove` work as those of an ordered map do; after each of them
the memory holds the whole map.

The contracts speak of a map by its view, a `Map<Seq<u8>, Seq<u8>>`, and of a memory by its bytes.
They are proved down to the bytes: the layout of the headers, of the chunks and of the nodes is part
of the model. They say which tree an insertion or a removal leaves, node by node (`src/steps.rs`),
and how many chunks and pages it takes. `src/laws.rs` states what follows for maps as a whole: what a lookup gives after
insertions and removals, that a map is found again in its memory, that its tree stays balanced, and
that no chunk is lost.

## Layout of the memory

| offset | what                                                    |
|-------:|---------------------------------------------------------|
|      0 | header of the map (20 bytes)                            |
|     20 | header of the allocator (28 bytes)                      |
|     48 | chunks of 13 + 4096 bytes: a header, and a node or none |

Keys and values have at most 64 bytes each. A node has at most 11 entries, and at least 5 if it is
not the root.
