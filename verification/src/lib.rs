//! The core model of two game-data container formats: AAMP, a
//! parameter archive keyed by 32-bit CRC hashes, and BYML, a tagged,
//! heterogeneous tree document — together with the YAML text bridge
//! that round-trips BYML trees through tagged text while preserving
//! every scalar width.
//!
//! The in-memory models live in [`aamp`] and [`byml`]; the shared
//! scalar lexer, quoting rules, and integer text of the bridge live
//! in [`yaml`]; the primitive value types in [`types`].
pub mod aamp;
pub mod byml;
pub mod types;
pub mod yaml;
