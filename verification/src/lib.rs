//! Group hierarchy engine for terminal-multiplexer-backed agent sessions:
//! a flat map of slash-delimited group paths, a derived navigable tree,
//! and a deterministic projection of tree plus session membership into an
//! ordered list of display rows.

pub mod cli;
pub mod dialog;
pub mod flatten;
pub mod groups;
pub mod instance;
pub mod mcp;
pub mod model;
pub mod ops;
pub mod paths;
pub mod resolve;
