//! The parts of a block-game server that decide which entities a query finds and
//! which chunk packets are prepared, shared and kept.
//!
//! The spatial side is an index of entities. [`spatial_registry`] hands out
//! generational handles, [`spatial_pose`] publishes where an entity is,
//! [`spatial_grid`] holds the microcells, and [`world_spatial_index`] ties them
//! together. [`index_model`] says what the index holds and when its queries provably
//! miss no entity; [`spatial_oracle`] is the brute-force reference it is measured
//! against. [`coord`] and [`geometry`] give coordinates an exact meaning.
//!
//! The packet side is a cache. [`packets`] holds packets and the cells in which a
//! preparation is shared, [`retention`] keeps finished packets within a byte
//! budget, and [`chunk_packet_cache`] decides what each request does next.
//! [`cache_history`] proves what holds of it over a whole history.
//! [`background_cpu`] limits the work that runs at once.
//!
//! Everything here works on plain values and takes `&mut self`: whoever shares an
//! index or a cache between threads puts a lock around it and performs the waiting.
pub mod background_cpu;
pub mod cache_history;
pub mod chunk_packet_cache;
pub mod coord;
pub mod geometry;
pub mod index_model;
pub mod packets;
pub mod retention;
pub mod spatial_grid;
pub mod spatial_metrics;
pub mod spatial_oracle;
pub mod spatial_pose;
pub mod spatial_query;
pub mod spatial_registry;
pub mod tables;
pub mod world_spatial_index;
