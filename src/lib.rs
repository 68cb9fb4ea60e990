//! A small content-addressed object store: blobs hold file contents, trees hold
//! directory listings, and every object is addressed by the SHA-1 digest of its
//! encoded body.
pub mod blob;
pub mod builder;
pub mod error;
pub mod ignore;
pub mod object;
pub mod primitives;
pub mod store;
pub mod text;
pub mod tree;
