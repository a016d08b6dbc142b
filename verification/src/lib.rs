//! Removes ANSI CSI (Control Sequence Introducer) escape sequences from text.
//!
//! The byte-level grammar of a CSI sequence and the mathematical model of the
//! scan live in [`csi`]; the executable scanner and stripper live in [`ansi`];
//! the general laws of the stripper are proved in [`laws`].

pub mod ansi;
pub mod csi;
pub mod laws;
