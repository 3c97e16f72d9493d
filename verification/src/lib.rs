//! An interpreter for a small pipeline data-flow language over JSON fixtures.
//!
//! A program binds pipeline fragments to names and emits streams into named
//! sinks.  Each pipeline feeds a finite stream of values through a sequence of
//! stages: pure transforms (map, filter, flat_map, group, rank), reversible
//! codecs (`json`, `utf8`, `base64`), lookups against in-process key-value
//! stores, a policy evaluator, and sinks.
//!
//! The stage algebra and its evaluator are the core: `stage` defines the
//! constructors, composition and inversion with their semantics, `eval` the
//! expression sub-language, and `runtime` the stream engine and the program
//! driver.  `json`, `base64` and `text` hold the codecs and text utilities,
//! `ast` and `parser` the surface syntax, and `api` the string-based surface
//! for embedders.

pub mod api;
pub mod ast;
pub mod base64;
pub mod eval;
pub mod json;
pub mod parser;
pub mod runtime;
pub mod stage;
pub mod text;
pub mod value;
