# shortener

The core of a URL shortener, written in Verus. The functions in `src/` are
proved against their contracts, except the small trusted wrappers (marked
`external_body`) that call the standard library, bincode, fastrand, chrono
and validator, whose contracts are taken from those crates' sources.

- `id::shortcut_generator` derives short codes from ids with a salted
  SplitMix64 stream.
- `cuckoo_filter` holds the fingerprints of ids in use; its contracts speak of
  the multiset of stored fingerprints and, given the fingerprint hashes, the
  exact eviction rounds; the laws cover the other-bucket involution, items
  staying found through an insert, and a delete undoing a first placement.
- `store::memory` keeps links and hit counts; `store::b_plus_tree` is an
  in-memory B+ tree; `store::bptree` holds the page, log and node formats of
  the on-disk tree.
- `routes`, `handlers` and `app_settings` decide where a request goes, check
  what it carries and hold the service's settings.

`app/` is the program around the library: configuration files, the HTTP
server, file I/O and the serde forms of the library's types.
