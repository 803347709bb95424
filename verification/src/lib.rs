//! Transcoding of a small scripting language's syntax tree into uLisp
//! S-expressions, together with a host-side simulator event log.
//!
//! The transcoder walks the statements of a compiled script and emits an
//! equivalent program in uLisp surface syntax. Emission goes through a
//! stack of open lexical scopes: a `let` binding opens a scope that
//! swallows the rest of its block, a loop or a conditional opens, fills
//! and closes its own scope, and closing the root renders the whole nested
//! program text. Operators and qualified names are renamed on the way
//! (`%` to `mod`, `ns::name` to `bl_ns_name`).
//!
//! The simulator captures device side effects — GPIO writes and sleeps —
//! as an ordered event log and serializes it as a JSON array for the UI to
//! replay.
//!
//! The laws module proves the output's standing properties: its
//! parentheses balance, and renaming leaves no `%` behind, for every
//! program whose identifiers avoid those characters.

pub mod ast;
pub mod laws;
pub mod numfmt;
pub mod scope;
pub mod simulator;
pub mod transcode;
