//! Bidirectional codec for fixed-layout machine-control programs.
//!
//! A program is a 22-byte header (two 16-bit delay fields) followed by a
//! sentinel-terminated sequence of 14-byte step records.  The same data has a
//! parallel human-readable text form.  This crate decodes either form into an
//! in-memory [`program::Program`] and encodes it back into the other, with a
//! hard 1422-byte ceiling on the binary form.

pub mod error;
pub mod head;
pub mod naming;
pub mod program;
pub mod step;
pub mod text;
pub mod wire;
