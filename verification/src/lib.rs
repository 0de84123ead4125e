//! Bundling of a Rust program and its local path dependencies into one
//! source file: the text rewriting, the comment and test stripping, the
//! module inlining and the dependency ordering, each with its contract.

pub mod text;
pub mod path;
pub mod strip;
pub mod expand;
pub mod deps;
pub mod manifest;
pub mod bundle;
