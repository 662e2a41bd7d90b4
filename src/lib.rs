//! Decoding and encoding of Acorn DFS disc catalog images.
//!
//! The `support` module holds the validated primitive types (printable ASCII
//! characters and names, binary-coded decimal bytes); the `dfs` module holds
//! the catalog model, its two-way binary codec, the byte layout that the
//! codec's contracts are stated over, and the laws proved of it; the
//! `manifest` module says how an unpacked file is described.

pub mod support;
pub mod dfs;
pub mod manifest;
