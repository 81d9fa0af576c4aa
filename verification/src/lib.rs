//! Fixed-size sliding windows over linear sequences, with adapters for
//! slices and for UTF-8 text counted in characters.

pub mod splitter;
