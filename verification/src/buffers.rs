//! Staging buffers that group items and produce write commands.
pub mod grouped_buffer;
pub mod types;
