//! A persistent, single-file key/value hash-table storage engine.
//!
//! The engine keeps records in a hash bucket table: each key is hashed to a
//! bucket, buckets hold collision chains, and records carry alignment padding
//! so that overwrites can happen in place. Reclaimed space is grouped by size
//! class in a free-block pool and reused on later writes. A bounded
//! least-recently-used record cache sits in front of the table; the table is
//! always the source of truth, so results never depend on the cache capacity.
//!
//! The storage file itself is handled as a byte image: [`db::TCH::open`] takes
//! the current contents of the file (or `None` when it does not exist) and
//! [`db::TCH::close`] hands back the image to be written out, so the engine's
//! logic stays independent of how the bytes reach the disk.

pub mod cache;
pub mod codec;
pub mod db;
pub mod errors;
pub mod hash;
pub mod laws;
pub mod storage;
pub mod tuning;
