//! The window generator and the adapters built on it.

pub mod from_char;
pub mod from_list;
pub mod to_list;
pub mod utils;
