//! Chat data as a file tree: an in-memory file system, a directory cache in
//! front of it, and the mapping from contacts and messages to files.

pub mod dir_cache;
pub mod error;
pub mod im_view;
pub mod layout;
pub mod lru;
pub mod memfs;
pub mod path;
