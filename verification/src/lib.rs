//! Language-intelligence core for Bazel BUILD files: a character trie
//! indexing build targets by `package/path:name` keys, prefix-based
//! completion, a deterministic `deps = [...]` list formatter, and the
//! text-position and code-lens calculations around them.
pub mod completion;
pub mod format;
pub mod index;
pub mod lens;
pub mod paths;
pub mod semantic;
pub mod target_trie;
pub mod text;
