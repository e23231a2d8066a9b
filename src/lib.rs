//! An incremental computation engine: named values, some of them derived
//! from others, recomputed in dependency order when an input changes.
pub mod dag;
pub mod compiler;
pub mod engine;
pub mod builder;
