//! The superblock: the geometry of the device, stored at its very start.
use vstd::prelude::*;

use crate::device::DeviceReply;
use crate::device::DeviceReplyView;
use crate::device::DeviceRequest;
use crate::device::DeviceRequestView;

verus! {

/// The geometry of a device, as its superblock records it. The values are
/// taken as found: nothing here checks that they describe a usable device.
#[derive(Debug, Clone, Copy, PartialEq, Eq, Structural)]
pub struct SuperBlock {
    /// Bytes per block.
    pub block_size: u32,
    /// Blocks on the device.
    pub num_blocks: u32,
}

/// The number of bytes at the start of the device that make up the superblock.
pub const SUPER_BLOCK_LEN: usize = 8;

/// The number that the four bytes of `bytes` from position `at` on stand for,
/// most significant byte first.
pub open spec fn spec_be_u32(bytes: Seq<u8>, at: int) -> u32
    recommends
        0 <= at,
        at + 4 <= bytes.len(),
{
    (bytes[at] * 0x100_0000 + bytes[at + 1] * 0x1_0000 + bytes[at + 2] * 0x100 + bytes[at
        + 3]) as u32
}

/// The superblock that the device's `reply` to the read of its first eight
/// bytes stands for: the block size in bytes 0 to 3 and the block count in
/// bytes 4 to 7, both big-endian. A reply that is not the data of a completed
/// read, or holds fewer than eight bytes, stands for none.
pub open spec fn spec_super_block(reply: DeviceReplyView) -> Option<SuperBlock> {
    match reply {
        DeviceReplyView::Data(bytes) => if bytes.len() >= SUPER_BLOCK_LEN {
            Some(
                SuperBlock { block_size: spec_be_u32(bytes, 0), num_blocks: spec_be_u32(bytes, 4) },
            )
        } else {
            None
        },
        _ => None,
    }
}

/// Decodes four bytes as a big-endian number.
fn be_u32(bytes: &Vec<u8>, at: usize) -> (r: u32)
    requires
        at + 4 <= bytes.len(),
    ensures
        r == spec_be_u32(bytes@, at as int),
{
    let b0: u32 = bytes[at] as u32;
    let b1: u32 = bytes[at + 1] as u32;
    let b2: u32 = bytes[at + 2] as u32;
    let b3: u32 = bytes[at + 3] as u32;
    b0 * 0x100_0000 + b1 * 0x1_0000 + b2 * 0x100 + b3
}

impl SuperBlock {
    /// The read that fetches the superblock: the first eight bytes of the
    /// device.
    pub fn read_request() -> (request: DeviceRequest)
        ensures
            request@ == (DeviceRequestView::Read { offset: 0, len: SUPER_BLOCK_LEN }),
    {
        DeviceRequest::Read { offset: 0, len: SUPER_BLOCK_LEN }
    }

    /// Decodes the superblock from the device's reply to
    /// [`SuperBlock::read_request`]. Returns `None` where the read failed or
    /// came up short; the values themselves are not checked.
    pub fn new(reply: &DeviceReply) -> (r: Option<SuperBlock>)
        ensures
            r == spec_super_block(reply@),
    {
        match reply {
            DeviceReply::Data(bytes) => {
                if bytes.len() < SUPER_BLOCK_LEN {
                    return None;
                }
                let block_size: u32 = be_u32(bytes, 0);
                let num_blocks: u32 = be_u32(bytes, 4);
                Some(SuperBlock { block_size, num_blocks })
            },
            _ => None,
        }
    }
}

} // verus!
