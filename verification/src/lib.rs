//! On-disk layout and block-group allocator of the dsfs filesystem.
//!
//! A device is an array of fixed-size blocks. Block 0 starts with the
//! superblock, which records the geometry. Blocks are gathered in groups, and
//! each group keeps a table, one block long, that tags every block of the group
//! with its current role.
//!
//! Nothing here touches a device. Where the device is needed, a function
//! returns the [`device::DeviceRequest`] to perform, and another takes the
//! [`device::DeviceReply`] that came back; the caller owns the handle. A mount
//! is a sequence of such steps, see [`dsfs::Dsfs::load`] and
//! [`dsfs::Mount::step`]; [`mounting`] states what the whole sequence comes to.
use vstd::prelude::*;

pub mod device;
pub mod dsfs;
pub mod fs_structs;
pub mod layout;
pub mod mounting;

verus! {

/// Index of a block group, counted from 0.
pub type GroupIndex = u32;

} // verus!
