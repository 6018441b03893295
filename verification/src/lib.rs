//! A small directory-bookmarking library: an ordered collection of
//! alias/path bookmarks, together with a verified textual codec for the
//! on-disk configuration format and the persistence error model.

pub mod bookmarks;
pub mod codec;
pub mod store;
