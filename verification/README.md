# kevy_store

A single-threaded keyspace of strings, hashes, lists, sets, sorted sets and
streams, with deadlines on keys and on hash fields, memory accounting,
eviction, snapshots, and values that can leave memory. Written in Verus: every
public function has a contract, and every contract is proved.

## Layout

- `src/` is the library.
  - `store.rs` and `store/` hold the keyspace: the model of its state, the
    commands by type, expiry, eviction, scanning, snapshots, tiering.
  - `value*.rs`, `small_*.rs`, `list*.rs`, `table.rs`, `seg_map.rs`,
    `sorted.rs`, `packed_row.rs` hold the values in their encodings.
  - `stream*.rs` hold streams, their ids and their consumer groups.
  - `byte_map.rs`, `id_map.rs`, `weigh.rs`, `packed.rs`, `le.rs`, `text.rs`,
    `bitmap.rs`, `rng.rs`, `evict.rs` are what these are built of.
  - `cold.rs`, `tier.rs`, `tier_codec.rs`, `segrows.rs` are about values that
    are not in memory.
- `tests/` runs the library.
- `app/` is ordinary Rust around it: clocks, floating point, files.

## How contracts read

A `Store` has a view, `StoreModel`: what each key holds and until when, the
deadlines of hash fields, the versions of watched keys, events, clocks, limits.
A command's contract says which model the old one becomes
(`final(self).became(*old(self), ..)`) and what is returned. The encoding of a
value does not show in the model; `Store::held` gives it where it matters, for
instance for what a key costs.

What is taken on trust is in `src/shared.rs`: three functions of `std`'s `Arc`.
