//! A content-addressable object database in the style of git: blobs, trees
//! and commits with canonical encodings, identities derived from a SHA-1
//! digest, compressed storage plans and a single head pointer.

pub mod text;
pub mod hexid;
pub mod digest;
pub mod compression;
pub mod error;
pub mod objects;
pub mod order;
pub mod blob;
pub mod tree;
pub mod config;
pub mod date;
pub mod commit;
pub mod refs;
pub mod ignore;
pub mod repository;
