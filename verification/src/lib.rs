//! Core of a `node_modules` cleaner: a tree-walker state machine that
//! collects `node_modules` directories while pruning ignored branches and
//! already-discovered subtrees, and a pattern-matching engine that classifies
//! the files found inside those directories against a configured rule set.
//!
//! All path and pattern logic works on plain strings; filesystem access,
//! logging and terminal rendering live outside this crate.

pub mod classifier;
pub mod matcher;
pub mod pattern;
pub mod settings;
pub mod text;
pub mod ui;
pub mod walker;
