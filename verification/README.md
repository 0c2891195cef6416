# pumpkin

Verified core of a block-game server's entity index and chunk packet cache.

* `src/` is the library, checked by Verus.
  * `world_spatial_index` finds entities by box; `index_model` states what it holds
    and what its answers are, and proves when a query misses no entity.
  * `chunk_packet_cache` decides what a request for a chunk packet does next, with
    `retention` for the byte budget and `packets` for shared preparations;
    `cache_history` proves that every answer was prepared for its own request.
  * `background_cpu` limits background work; `coord` is binary64 arithmetic on bit
    patterns with an exact meaning.
  * The functions marked `external_body` call `dashmap`, `rustc-hash`, `arc-swap` and
    `bytes`. Their contracts are not proved; each says what it relies on.
* `tests/` runs the library.
* `app/` holds the shells that add locks, threads and waiting.
