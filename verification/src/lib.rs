//! Support library for a note-level vocal resampling engine.
//!
//! The verified core covers the parts of the engine that work on integers,
//! bytes and strings: the pitch-bend curve codec (a base64-alphabet,
//! run-length-encoded stream of signed 12-bit values), the note-name pitch
//! parser, and the small container and path helpers the engine uses.
//! The floating-point signal path (interpolation, timeline construction,
//! effects, resynthesis) lives with the binary around this library, since
//! this library holds no floating-point code.

pub mod digits;
pub mod features;
pub mod pitchbend;
pub mod util;
