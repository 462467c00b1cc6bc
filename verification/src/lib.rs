//! Build-time compiler for a retro tile-game scripting dialect.
//!
//! Scripts may use namespaced, section-local and anonymous labels together
//! with a small `%include` preprocessor. The library parses each script with
//! a PEG runtime that records a typed capture tree, splits the script into
//! chunks, resolves every label to a short collision-free identifier, and
//! reads and writes the binary world container the game engine uses.


pub mod text;
pub mod peg;
pub mod ir;
pub mod registry;
pub mod meta;
pub mod script;
pub mod diag;
pub mod chunks;
pub mod resolve;
pub mod encoding;
pub mod world;
pub mod scan;
pub mod macroparse;
pub mod macroeval;
