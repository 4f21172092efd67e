//! One scanner per dialect.  Each walks the file's lines once, opens and
//! closes sortable regions by the dialect's rules, and hands every closed
//! region to the block engine.

pub mod bazel;
pub mod cargo_toml;
pub mod generic;
pub mod gitignore;
pub mod rust_derive;
