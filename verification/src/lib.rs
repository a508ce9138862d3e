//! A per-entity inventory store: named entities (players, NPCs) each own a
//! list of item stacks. Records live in an in-memory cache with a
//! get-or-create-then-persist protocol; the merge/decrement logic on item
//! stacks and the cache's one-record-per-key guarantee are specified and
//! verified here. File I/O and serialization live outside the library and
//! hand plain values in and out.

pub mod codec;
pub mod items;
pub mod manager;
pub mod record;
pub mod store;
