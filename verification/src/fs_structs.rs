//! The structures stored on the device.
pub mod block_table;
pub mod super_block;
