# bimap

A bidirectional hash map in Rust, verified with Verus. A `BiMap` keeps a one-to-one relation between
two types and looks keys of either type up in it. Each side is a hopscotch hash table whose buckets
point at their partners on the other side.

```rust
let mut map = BiMap::new();
map.insert(1, "one".to_string());
assert_eq!(map.get_left(&1), Some(&"one".to_string()));
assert_eq!(map.get_right("one"), Some(&1));
```

## What is proved

A map is modelled as the set of its pairs (`map@`). `insert`, `get_left`, `get_right`, `remove_left`,
`remove_right` and iteration are specified over that set, for two kinds of keys:

- lawful keys, of which equal ones are identical and hash alike (`lawful`);
- keys whose `==` is an equivalence that may be coarser than identity, and of which equal ones hash
  alike (`congruent`). Here an insertion also tells which instances come out and which are kept.

For other keys less is said: a new map is empty, what comes out of a map was put into it, and nothing
panics. `insert` also says when the tables grow, and that they do not while the map is within its
`capacity`. `src/laws.rs` states what follows for any sequence of calls.

The placement of keys is specified apart from the tables, in `src/layout.rs`: `place` tells from the
homes of the keys in a table where a further key goes, and which keys move.

## What is trusted

All in `src/hashing.rs`, but for the last:

- `build_hasher`, `feed` and `finish_key` call `BuildHasher::build_hasher`, `Hash::hash` and
  `Hasher::finish`. Nothing is claimed of them.
- `finish_query` calls `Hasher::finish` too: a key and its borrowed form hash alike, and a lawful key
  hashes alike every time.
- `lend` calls `Borrow::borrow`. Nothing is claimed of it.
- `compare` calls `==` on borrowed forms: it tells whether the keys are equal; of lawful keys at most
  one is equal to a query in its borrowed form.
- `RandomState::new`, declared in `src/builder.rs`, of which nothing is claimed.

## Layout

| Module     | Contents                                                        |
|------------|-----------------------------------------------------------------|
| `map`      | `BiMap`: its model, its invariant and its operations            |
| `builder`  | `BiMapBuilder`: hash builders and neighbourhoods of choice      |
| `relation` | one-to-one relations as sets of pairs                           |
| `laws`     | what holds of maps and relations                                |
| `pairing`  | two linked tables, and the relation they stand for              |
| `lookup`   | finding and removing keys                                       |
| `listing`  | listing pairs                                                   |
| `table`    | one table: placing keys, displacing others                      |
| `layout`   | where a key goes, as a function of the homes of the others      |
| `hashing`  | hashing and comparing keys                                      |
| `bucket`, `bitfield`, `ring`, `spill` | what tables are made of              |
