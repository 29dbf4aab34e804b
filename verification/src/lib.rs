//! A hierarchical, path-addressed object store with directory-scoped access
//! grants, compressed blobs, in-memory archives and capability links.

pub mod access;
pub mod archive;
pub mod blob;
pub mod error;
pub mod identity;
pub mod links;
pub mod path;
pub mod request;
pub mod store;
pub mod text;
pub mod token;
