//! Content-addressed object store core: object framing, compression,
//! hashing and the binary tree format, with their contracts.
pub mod walk;
pub mod cli;
pub mod codec;
pub mod decimal;
pub mod hash;
pub mod kind;
pub mod store;
pub mod text;
pub mod tree;
