//! Converts decoded table rows into generic value trees and exposes
//! them through four consumption modes: one JSON text blob, an ordered
//! in-memory list of row maps, a pull-based streaming cursor, and
//! delimited text with a header line. The conversion rules, both text
//! encodings, the drain-and-abort failure policy and the cursor's state
//! machine are specified and verified here; opening a file and pulling
//! decoded rows from it belong to the decoder's edge, which hands this
//! crate plain values.

pub mod csvtext;
pub mod errors;
pub mod json;
pub mod laws;
pub mod numtext;
pub mod rows;
pub mod stream;
pub mod value;
