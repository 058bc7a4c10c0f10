//! Flattens a graph of Lua source files linked by a textual "require"
//! convention into one self-contained output file.
//!
//! The core is a recursive require-resolution and inlining engine:
//! comment-aware detection of require calls, extraction of the target path
//! and forwarded call arguments, path resolution under a relative /
//! absolute-path policy, per-line macro annotations that alter resolution,
//! and statement-safe textual splicing that preserves execution order.
//!
//! The engine is purely textual: it locates a configurable call token and
//! substitutes text. It does not parse the target language, so nested
//! calls, string literals containing the call token, and multi-line call
//! expressions are known limitations, documented where they matter.

pub mod bundler;
pub mod text;
pub mod utils;

use vstd::prelude::*;

verus! {

} // verus!
