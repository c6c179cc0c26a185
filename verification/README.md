# iroha_python

Hashable containers for the Python bindings of Hyperledger Iroha 2, verified with Verus.

- `src/dict.rs` — `Dict<K, V>`: entries filed by (key hash, value hash) in nested
  `BTreeMap`s, with a list of entries under each pair so that unequal keys whose hashes
  both collide are all kept; setting, lookup and removal by key hash plus a key-equality
  closure (setting a key replaces the entry of an equal key); length, emptiness, ordered
  iteration, and a hash folded from the entries' hashes. Its well-formedness is a type
  invariant.
- `src/items.rs` — consuming iterators over a dictionary's entries, keys and values.
- `src/list.rs` — `List<T>`: indexed access (an index is read as an unsigned word) and a
  hash folded from every item's hash, an unhashable item being an error.
- `src/pyhash.rs` — Python's hash of machine integers and the folding of hashes.
- `src/compare.rs` — rich comparison by hash.
- `src/render.rs` — the `[a,b]` and `{k: v,k2: v2}` text of the containers.
- `src/order.rs` — the order in which a `BTreeMap` is walked, and listings of sets of
  hash pairs.
- `src/sums.rs` — sums over finite sets, by which entries are counted.
- `src/laws.rs` — properties across calls: reading back what was set, what setting and
  removal leave of other keys, how the count moves, what the hashes depend on (not on the
  order in which unequal keys were set), and what draining an iterator yields; over any
  run of set and remove calls, a lookup finds the last value written, no key is held or
  listed twice, and the count moves by one exactly for a new or a present key.
- `app/` — the `iroha2` Python module (pyo3): it reads hashes, equality and
  text of Python objects and hands them to the containers, and binds the Iroha key,
  hashing and client APIs.
