//! Library for keeping a local store of rated media items in sync with a
//! remote collection: planning paged fetches, planning chunked playlist
//! writes with bounded retry, merging fetched items into the rating store,
//! deriving a ranked weight feed, and encoding the store for persistence.

pub mod codec;
pub mod fetch;
pub mod playlist;
pub mod rank;
pub mod store;
