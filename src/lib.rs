//! Reassembly of length-delimited packages from a fragmented byte stream.
//!
//! A package travels as a variable-length header followed by its payload.
//! The header states the total size of header and payload together.
//! `package` holds the header codec and the payload accumulator;
//! `stream_reader` holds the stateful reader that stitches chunks back into
//! whole packages.

pub mod package;
pub mod stream_reader;
