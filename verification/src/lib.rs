//! Storage core of a local, content-addressable snapshot engine.
//!
//! Content is addressed by its SHA-1 digest (`digest`) and kept, compressed,
//! in an object store that holds each object once (`object_store`, `codec`).
//! Paths are staged in an index with a line-oriented persisted form
//! (`index`). A commit snapshots what is staged as a hierarchy of trees
//! (`tree`, `layout`, `builder`) and records it with its parent, author, time
//! and message (`commit`, `clock`). The operations that a command line needs
//! are in `repository`.

pub mod builder;
pub mod bytes;
pub mod clock;
pub mod codec;
pub mod commit;
pub mod digest;
pub mod error;
pub mod index;
pub mod layout;
pub mod object_store;
pub mod repository;
pub mod tree;
