//! The per-group table of block tags.
use vstd::prelude::*;

use crate::device::device_after;
use crate::device::device_covers;
use crate::device::device_reply;
use crate::device::lemma_read_back;
use crate::device::DeviceReply;
use crate::device::DeviceReplyView;
use crate::device::DeviceRequest;
use crate::device::DeviceRequestView;
use crate::dsfs::Dsfs;
use crate::layout::spec_checked_table_offset;
use crate::layout::spec_table_offset;
use crate::layout::table_offset;
use crate::GroupIndex;

verus! {

/// Why an operation on a block table failed.
#[derive(Debug, Clone, Copy, PartialEq, Eq)]
pub enum BlockTableError {
    /// An index into a table was not below the table's length. Holds the index
    /// that was asked for and the number of entries.
    OutOfBounds(u32, u32),
    /// The device failed to read or write the table's block, or came up short.
    FileError,
    /// A geometry value does not fit the type it is needed in, as a table
    /// offset beyond 64 bits or a block size of zero. Holds the names of the
    /// source and target types.
    TypeCastError(&'static str, &'static str),
    /// A byte of an on-disk table is not the encoding of any tag.
    InvalidBlockType(u8),
}

/// The role of one block.
#[derive(Debug, Clone, Copy, PartialEq, Eq, Structural)]
pub enum BlockType {
    /// Not in use. On the device: `0x00`.
    Free,
    /// Holds the superblock. On the device: `0x01`.
    SuperBlock,
    /// Holds the table of its group. On the device: `0x02`.
    BlockTable,
    /// On the device: `0x03`.
    Inode,
    /// On the device: `0x04`.
    Data,
    /// On the device: `0x05`.
    Error,
    /// On the device: `0x06`.
    IndirectionTable,
}

impl BlockType {
    /// The byte that stands for this tag on the device.
    pub open spec fn spec_to_byte(self) -> u8 {
        match self {
            BlockType::Free => 0x0,
            BlockType::SuperBlock => 0x1,
            BlockType::BlockTable => 0x2,
            BlockType::Inode => 0x3,
            BlockType::Data => 0x4,
            BlockType::Error => 0x5,
            BlockType::IndirectionTable => 0x6,
        }
    }

    /// The tag that a byte stands for, if any.
    pub open spec fn spec_from_byte(byte: u8) -> Option<BlockType> {
        if byte == 0x0 {
            Some(BlockType::Free)
        } else if byte == 0x1 {
            Some(BlockType::SuperBlock)
        } else if byte == 0x2 {
            Some(BlockType::BlockTable)
        } else if byte == 0x3 {
            Some(BlockType::Inode)
        } else if byte == 0x4 {
            Some(BlockType::Data)
        } else if byte == 0x5 {
            Some(BlockType::Error)
        } else if byte == 0x6 {
            Some(BlockType::IndirectionTable)
        } else {
            None
        }
    }

    /// Encodes the tag as its on-disk byte.
    pub fn to_byte(self) -> (byte: u8)
        ensures
            byte == self.spec_to_byte(),
    {
        match self {
            BlockType::Free => 0x0,
            BlockType::SuperBlock => 0x1,
            BlockType::BlockTable => 0x2,
            BlockType::Inode => 0x3,
            BlockType::Data => 0x4,
            BlockType::Error => 0x5,
            BlockType::IndirectionTable => 0x6,
        }
    }
}

impl vstd::std_specs::convert::TryFromSpecImpl<u8> for BlockType {
    open spec fn obeys_try_from_spec() -> bool {
        true
    }

    open spec fn try_from_spec(byte: u8) -> Result<Self, BlockTableError> {
        match BlockType::spec_from_byte(byte) {
            Some(tag) => Ok(tag),
            None => Err(BlockTableError::InvalidBlockType(byte)),
        }
    }
}

impl TryFrom<u8> for BlockType {
    type Error = BlockTableError;

    /// Decodes an on-disk byte. Bytes above `0x06` stand for no tag and are
    /// rejected, never coerced.
    fn try_from(byte: u8) -> (r: Result<Self, BlockTableError>) {
        match byte {
            0x0 => Ok(BlockType::Free),
            0x1 => Ok(BlockType::SuperBlock),
            0x2 => Ok(BlockType::BlockTable),
            0x3 => Ok(BlockType::Inode),
            0x4 => Ok(BlockType::Data),
            0x5 => Ok(BlockType::Error),
            0x6 => Ok(BlockType::IndirectionTable),
            _ => Err(BlockTableError::InvalidBlockType(byte)),
        }
    }
}

/// The tags of one group's blocks, with the group they belong to.
pub struct BlockTable {
    table: Vec<BlockType>,
    group_index: GroupIndex,
}

/// What a [`BlockTable`] stands for: the group it describes and one tag per
/// block of that group, in block order.
pub struct BlockTableView {
    pub group_index: GroupIndex,
    pub tags: Seq<BlockType>,
}

impl BlockTableView {
    /// The tag of the block at `index` in the group. An index that is not
    /// below the number of entries is out of bounds.
    pub open spec fn get_type(self, index: u32) -> Result<BlockType, BlockTableError> {
        if index < self.tags.len() {
            Ok(self.tags[index as int])
        } else {
            Err(BlockTableError::OutOfBounds(index, self.tags.len() as u32))
        }
    }

    /// The table with the block at `index` tagged `value`, under the same
    /// bounds.
    pub open spec fn set_type(self, index: u32, value: BlockType) -> Result<
        BlockTableView,
        BlockTableError,
    > {
        if index < self.tags.len() {
            Ok(BlockTableView { tags: self.tags.update(index as int, value), ..self })
        } else {
            Err(BlockTableError::OutOfBounds(index, self.tags.len() as u32))
        }
    }
}

impl View for BlockTable {
    type V = BlockTableView;

    closed spec fn view(&self) -> BlockTableView {
        BlockTableView { group_index: self.group_index, tags: self.table@ }
    }
}

/// The on-disk form of a tag sequence: one byte per tag, in order.
pub open spec fn spec_table_as_bytes(tags: Seq<BlockType>) -> Seq<u8> {
    Seq::new(tags.len(), |i: int| tags[i].spec_to_byte())
}

/// Whether every byte of `bytes` is the encoding of a tag.
pub open spec fn all_tag_bytes(bytes: Seq<u8>) -> bool {
    forall|i: int| 0 <= i < bytes.len() ==> BlockType::spec_from_byte(#[trigger] bytes[i]) is Some
}

/// Whether `i` is the position of the first byte of `bytes` that is not the
/// encoding of a tag.
pub open spec fn is_first_invalid(bytes: Seq<u8>, i: int) -> bool {
    &&& 0 <= i < bytes.len()
    &&& BlockType::spec_from_byte(bytes[i]) is None
    &&& forall|j: int| 0 <= j < i ==> BlockType::spec_from_byte(#[trigger] bytes[j]) is Some
}

/// The position of the first byte of `bytes` that is not the encoding of a
/// tag, where there is one.
pub open spec fn first_invalid(bytes: Seq<u8>) -> int {
    choose|i: int| is_first_invalid(bytes, i)
}

/// The tags that `bytes` stand for. Where some byte stands for no tag, the
/// first such byte is reported and no tag sequence results.
pub open spec fn spec_table_from_bytes(bytes: Seq<u8>) -> Result<Seq<BlockType>, BlockTableError> {
    if all_tag_bytes(bytes) {
        Ok(Seq::new(bytes.len(), |i: int| BlockType::spec_from_byte(bytes[i]).unwrap()))
    } else {
        Err(BlockTableError::InvalidBlockType(bytes[first_invalid(bytes)]))
    }
}

/// A table of `size` entries, all free.
pub open spec fn spec_new_table(size: u32) -> Seq<BlockType> {
    Seq::new(size as nat, |i: int| BlockType::Free)
}

/// The tags of a freshly created group: everything is free but the blocks that
/// the layout reserves. Group 0 starts with the superblock and its own table;
/// every other group starts with its table.
pub open spec fn spec_initial_tags(blocks_in_group: u32, group_index: GroupIndex) -> Seq<BlockType> {
    Seq::new(
        blocks_in_group as nat,
        |i: int|
            if group_index == 0 && i == 0 {
                BlockType::SuperBlock
            } else if group_index == 0 && i == 1 {
                BlockType::BlockTable
            } else if group_index != 0 && i == 0 {
                BlockType::BlockTable
            } else {
                BlockType::Free
            },
    )
}

/// The write that persists `table`: all of its bytes, at the offset of its
/// group's table.
pub open spec fn spec_write_request(
    block_size: u32,
    blocks_in_group: u32,
    table: BlockTableView,
) -> Result<DeviceRequestView, BlockTableError> {
    match spec_checked_table_offset(block_size, blocks_in_group, table.group_index) {
        Ok(offset) => Ok(
            DeviceRequestView::Write { offset, bytes: spec_table_as_bytes(table.tags) },
        ),
        Err(e) => Err(e),
    }
}

/// The read that fetches the table of group `group_index`: one entry per block
/// of the group, from the offset of the group's table.
pub open spec fn spec_read_request(
    block_size: u32,
    blocks_in_group: u32,
    group_index: GroupIndex,
) -> Result<DeviceRequestView, BlockTableError> {
    if blocks_in_group > usize::MAX {
        Err(BlockTableError::TypeCastError("u32", "usize"))
    } else {
        match spec_checked_table_offset(block_size, blocks_in_group, group_index) {
            Ok(offset) => Ok(DeviceRequestView::Read { offset, len: blocks_in_group as usize }),
            Err(e) => Err(e),
        }
    }
}

/// The table of group `group_index` that the device's `reply` to the read of
/// that table stands for. A reply that is not the data of a completed read, or
/// is not one block long, counts as a failed read.
pub open spec fn spec_from_fs(
    blocks_in_group: u32,
    group_index: GroupIndex,
    reply: DeviceReplyView,
) -> Result<BlockTableView, BlockTableError> {
    if blocks_in_group > usize::MAX {
        Err(BlockTableError::TypeCastError("u32", "usize"))
    } else {
        match reply {
            DeviceReplyView::Data(bytes) => if bytes.len() != blocks_in_group {
                Err(BlockTableError::FileError)
            } else {
                match spec_table_from_bytes(bytes) {
                    Ok(tags) => Ok(BlockTableView { group_index, tags }),
                    Err(e) => Err(e),
                }
            },
            _ => Err(BlockTableError::FileError),
        }
    }
}

/// A fresh table for group `group_index` and the write that persists it.
pub open spec fn spec_create_and_init(
    block_size: u32,
    blocks_in_group: u32,
    group_index: GroupIndex,
) -> Result<(BlockTableView, DeviceRequestView), BlockTableError> {
    if blocks_in_group > usize::MAX {
        Err(BlockTableError::TypeCastError("u32", "usize"))
    } else {
        let table = BlockTableView {
            group_index,
            tags: spec_initial_tags(blocks_in_group, group_index),
        };
        match spec_write_request(block_size, blocks_in_group, table) {
            Ok(request) => Ok((table, request)),
            Err(e) => Err(e),
        }
    }
}

/// Among bytes that are not all encodings of tags, one is the first that is
/// not, and it is the one that decoding reports.
pub proof fn lemma_first_invalid(bytes: Seq<u8>)
    requires
        !all_tag_bytes(bytes),
    ensures
        is_first_invalid(bytes, first_invalid(bytes)),
        spec_table_from_bytes(bytes) == Err::<Seq<BlockType>, BlockTableError>(
            BlockTableError::InvalidBlockType(bytes[first_invalid(bytes)]),
        ),
{
    let bad = choose|i: int| 0 <= i < bytes.len() && BlockType::spec_from_byte(bytes[i]) is None;
    lemma_first_invalid_up_to(bytes, bad);
}

/// Below any byte that is not the encoding of a tag lies the first such byte.
proof fn lemma_first_invalid_up_to(bytes: Seq<u8>, bad: int)
    requires
        0 <= bad < bytes.len(),
        BlockType::spec_from_byte(bytes[bad]) is None,
    ensures
        exists|i: int| is_first_invalid(bytes, i),
    decreases bad,
{
    if exists|j: int| 0 <= j < bad && BlockType::spec_from_byte(bytes[j]) is None {
        let j = choose|j: int| 0 <= j < bad && BlockType::spec_from_byte(bytes[j]) is None;
        lemma_first_invalid_up_to(bytes, j);
    } else {
        assert(is_first_invalid(bytes, bad));
    }
}

/// Decoding undoes encoding: the bytes of any tag sequence decode to that
/// sequence.
pub proof fn lemma_table_round_trip(tags: Seq<BlockType>)
    ensures
        spec_table_from_bytes(spec_table_as_bytes(tags)) == Ok::<Seq<BlockType>, BlockTableError>(
            tags,
        ),
{
    let bytes = spec_table_as_bytes(tags);
    assert forall|i: int| 0 <= i < bytes.len() implies BlockType::spec_from_byte(
        #[trigger] bytes[i],
    ) == Some(tags[i]) by {
        lemma_tag_round_trip(tags[i]);
    }
    assert(all_tag_bytes(bytes));
    assert(Seq::new(bytes.len(), |i: int| BlockType::spec_from_byte(bytes[i]).unwrap()) =~= tags);
}

/// A tag's byte decodes to the tag, and a byte that decodes to a tag is that
/// tag's byte.
pub proof fn lemma_tag_round_trip(tag: BlockType)
    ensures
        BlockType::spec_from_byte(tag.spec_to_byte()) == Some(tag),
        forall|byte: u8|
            BlockType::spec_from_byte(byte) == Some(tag) ==> byte == tag.spec_to_byte(),
        forall|byte: u8| (#[trigger] BlockType::spec_from_byte(byte)) is Some <==> byte <= 0x06,
{
}

/// Writing a table and loading it again gives the same table. On a device that
/// covers the group's table block, the write that persists `table` completes,
/// the read for the same group then completes, and the reply to that read
/// stands for `table` itself.
pub proof fn lemma_flush_then_load(
    image: Seq<u8>,
    block_size: u32,
    blocks_in_group: u32,
    table: BlockTableView,
)
    requires
        table.tags.len() == blocks_in_group,
        device_covers(
            image,
            spec_table_offset(block_size, blocks_in_group, table.group_index),
            blocks_in_group as nat,
        ),
        image.len() <= u64::MAX,
    ensures
        spec_write_request(block_size, blocks_in_group, table) is Ok,
        spec_read_request(block_size, blocks_in_group, table.group_index) is Ok,
        ({
            let write = spec_write_request(block_size, blocks_in_group, table).unwrap();
            let read = spec_read_request(block_size, blocks_in_group, table.group_index).unwrap();
            &&& device_reply(image, write) is Written
            &&& spec_from_fs(
                blocks_in_group,
                table.group_index,
                device_reply(device_after(image, write), read),
            ) == Ok::<BlockTableView, BlockTableError>(table)
        }),
{
    let offset = spec_table_offset(block_size, blocks_in_group, table.group_index) as u64;
    let bytes = spec_table_as_bytes(table.tags);
    lemma_read_back(image, offset, bytes);
    lemma_table_round_trip(table.tags);
}

/// A corrupt byte fails the load. Where the block that comes back for a
/// group's table holds a byte that is not the encoding of a tag, loading fails
/// with the first such byte, and no tag is made up for it.
pub proof fn lemma_invalid_byte_rejected(
    blocks_in_group: u32,
    group_index: GroupIndex,
    block: Seq<u8>,
    at: int,
)
    requires
        block.len() == blocks_in_group,
        0 <= at < block.len(),
        BlockType::spec_from_byte(block[at]) is None,
    ensures
        spec_from_fs(blocks_in_group, group_index, DeviceReplyView::Data(block)) == Err::<
            BlockTableView,
            BlockTableError,
        >(BlockTableError::InvalidBlockType(block[first_invalid(block)])),
        is_first_invalid(block, first_invalid(block)),
        first_invalid(block) <= at,
{
    assert(!all_tag_bytes(block));
    lemma_first_invalid(block);
}

/// Writing `0x07` anywhere into a valid table block fails the load of that
/// group with `InvalidBlockType(0x07)`.
pub proof fn lemma_corrupt_byte_rejected(
    blocks_in_group: u32,
    group_index: GroupIndex,
    block: Seq<u8>,
    at: int,
)
    requires
        block.len() == blocks_in_group,
        all_tag_bytes(block),
        0 <= at < block.len(),
    ensures
        spec_from_fs(
            blocks_in_group,
            group_index,
            DeviceReplyView::Data(block.update(at, 0x07)),
        ) == Err::<BlockTableView, BlockTableError>(BlockTableError::InvalidBlockType(0x07)),
{
    let corrupt = block.update(at, 0x07);
    lemma_invalid_byte_rejected(blocks_in_group, group_index, corrupt, at);
    let first = first_invalid(corrupt);
    if first != at {
        assert(corrupt[first] == block[first]);
    }
}

/// A corrupt byte on the device fails the next load. Once a table has been
/// written, overwriting any one byte of its block with `0x07` makes the load
/// of that group fail with `InvalidBlockType(0x07)`.
pub proof fn lemma_corrupt_device_rejected(
    image: Seq<u8>,
    block_size: u32,
    blocks_in_group: u32,
    table: BlockTableView,
    at: int,
)
    requires
        table.tags.len() == blocks_in_group,
        device_covers(
            image,
            spec_table_offset(block_size, blocks_in_group, table.group_index),
            blocks_in_group as nat,
        ),
        image.len() <= u64::MAX,
        0 <= at < blocks_in_group,
    ensures
        ({
            let write = spec_write_request(block_size, blocks_in_group, table).unwrap();
            let read = spec_read_request(block_size, blocks_in_group, table.group_index).unwrap();
            let offset = spec_table_offset(block_size, blocks_in_group, table.group_index);
            let corrupt = device_after(image, write).update(offset + at, 0x07);
            spec_from_fs(blocks_in_group, table.group_index, device_reply(corrupt, read)) == Err::<
                BlockTableView,
                BlockTableError,
            >(BlockTableError::InvalidBlockType(0x07))
        }),
{
    let offset = spec_table_offset(block_size, blocks_in_group, table.group_index) as int;
    let write = spec_write_request(block_size, blocks_in_group, table).unwrap();
    let bytes = spec_table_as_bytes(table.tags);
    let corrupt = device_after(image, write).update(offset + at, 0x07);
    assert(corrupt.subrange(offset, offset + blocks_in_group) =~= bytes.update(at, 0x07));
    assert(all_tag_bytes(bytes)) by {
        assert forall|i: int| 0 <= i < bytes.len() implies BlockType::spec_from_byte(
            #[trigger] bytes[i],
        ) is Some by {
            lemma_tag_round_trip(table.tags[i]);
        }
    }
    lemma_corrupt_byte_rejected(blocks_in_group, table.group_index, bytes, at);
}

/// The bounds of a table's indices: the number of entries itself is out of
/// bounds for reading and for writing, and the index just below it is not.
pub proof fn lemma_index_bounds(table: BlockTableView, value: BlockType)
    requires
        table.tags.len() <= u32::MAX,
    ensures
        table.get_type(table.tags.len() as u32) == Err::<BlockType, BlockTableError>(
            BlockTableError::OutOfBounds(table.tags.len() as u32, table.tags.len() as u32),
        ),
        table.set_type(table.tags.len() as u32, value) == Err::<BlockTableView, BlockTableError>(
            BlockTableError::OutOfBounds(table.tags.len() as u32, table.tags.len() as u32),
        ),
        table.tags.len() > 0 ==> table.get_type((table.tags.len() - 1) as u32) is Ok
            && table.set_type((table.tags.len() - 1) as u32, value) is Ok,
{
}

/// What a fresh table holds. In group 0 the first block is the superblock and
/// the second the group's table; in any other group the first block is the
/// group's table; every other block is free.
pub proof fn lemma_creation_defaults(blocks_in_group: u32, group_index: GroupIndex, index: u32)
    requires
        index < blocks_in_group,
    ensures
        (BlockTableView {
            group_index,
            tags: spec_initial_tags(blocks_in_group, group_index),
        }).get_type(index) == Ok::<BlockType, BlockTableError>(
            if group_index == 0 && index == 0 {
                BlockType::SuperBlock
            } else if group_index == 0 && index == 1 {
                BlockType::BlockTable
            } else if group_index != 0 && index == 0 {
                BlockType::BlockTable
            } else {
                BlockType::Free
            },
        ),
        spec_initial_tags(blocks_in_group, group_index).len() == blocks_in_group,
{
}

impl BlockTable {
    #[verifier::type_invariant]
    spec fn inv(self) -> bool {
        self.table@.len() <= u32::MAX
    }

    /// The group that this table describes.
    pub fn group_index(&self) -> (r: GroupIndex)
        ensures
            r == self@.group_index,
    {
        self.group_index
    }

    /// Returns the table as a vector of bytes, one per tag.
    pub fn table_as_bytes(&self) -> (bytes: Vec<u8>)
        ensures
            bytes@ == spec_table_as_bytes(self@.tags),
    {
        let mut bytes: Vec<u8> = Vec::new();
        let mut i: usize = 0;
        while i < self.table.len()
            invariant
                i <= self.table@.len(),
                bytes@.len() == i,
                forall|j: int| 0 <= j < i ==> bytes@[j] == self.table@[j].spec_to_byte(),
            decreases self.table@.len() - i,
        {
            bytes.push(self.table[i].to_byte());
            i += 1;
        }
        assert(bytes@ =~= spec_table_as_bytes(self@.tags));
        bytes
    }

    /// Converts the bytes of an on-disk table to tags. Fails on the first byte
    /// that is not the encoding of a tag.
    pub fn table_from_bytes(bytes: Vec<u8>) -> (r: Result<Vec<BlockType>, BlockTableError>)
        ensures
            match r {
                Ok(table) => spec_table_from_bytes(bytes@) == Ok::<
                    Seq<BlockType>,
                    BlockTableError,
                >(table@),
                Err(e) => spec_table_from_bytes(bytes@) == Err::<Seq<BlockType>, BlockTableError>(e),
            },
    {
        let mut table: Vec<BlockType> = Vec::new();
        let mut i: usize = 0;
        while i < bytes.len()
            invariant
                i <= bytes@.len(),
                table@.len() == i,
                forall|j: int|
                    0 <= j < i ==> BlockType::spec_from_byte(#[trigger] bytes@[j]) == Some(
                        table@[j],
                    ),
            decreases bytes@.len() - i,
        {
            let byte: u8 = bytes[i];
            match BlockType::try_from(byte) {
                Ok(tag) => {
                    table.push(tag);
                },
                Err(_) => {
                    proof {
                        assert(is_first_invalid(bytes@, i as int));
                        assert(!all_tag_bytes(bytes@));
                        assert(first_invalid(bytes@) == i);
                    }
                    return Err(BlockTableError::InvalidBlockType(byte));
                },
            }
            i += 1;
        }
        proof {
            assert(all_tag_bytes(bytes@));
            assert(table@ =~= Seq::new(
                bytes@.len(),
                |i: int| BlockType::spec_from_byte(bytes@[i]).unwrap(),
            ));
        }
        Ok(table)
    }

    /// Makes a table of `size` entries, all free. Fails where `size` does not
    /// fit the platform's index type.
    pub fn new_table(size: u32) -> (r: Result<Vec<BlockType>, BlockTableError>)
        ensures
            match r {
                Ok(table) => size <= usize::MAX && table@ == spec_new_table(size),
                Err(e) => size > usize::MAX && e == BlockTableError::TypeCastError("u32", "usize"),
            },
    {
        match usize::try_from(size) {
            Ok(len) => {
                let table: Vec<BlockType> = vec![BlockType::Free; len];
                assert(table@ =~= spec_new_table(size));
                Ok(table)
            },
            Err(_) => Err(BlockTableError::TypeCastError("u32", "usize")),
        }
    }

    /// Creates the table of a fresh group, with the reserved blocks tagged,
    /// and the write that persists it. The table is on the device once that
    /// write has completed.
    pub fn create_and_init(dsfs: &Dsfs, group_index: GroupIndex) -> (r: Result<
        (BlockTable, DeviceRequest),
        BlockTableError,
    >)
        requires
            group_index == 0 ==> dsfs@.blocks_in_group >= 2,
        ensures
            match r {
                Ok((table, request)) => spec_create_and_init(
                    dsfs@.block_size,
                    dsfs@.blocks_in_group,
                    group_index,
                ) == Ok::<(BlockTableView, DeviceRequestView), BlockTableError>(
                    (table@, request@),
                ),
                Err(e) => spec_create_and_init(
                    dsfs@.block_size,
                    dsfs@.blocks_in_group,
                    group_index,
                ) == Err::<(BlockTableView, DeviceRequestView), BlockTableError>(e),
            },
    {
        let blocks_in_group: u32 = dsfs.blocks_in_group();
        let mut table: Vec<BlockType> = match Self::new_table(blocks_in_group) {
            Ok(table) => table,
            Err(e) => {
                return Err(e);
            },
        };
        // If the first group, the first block is the superblock and the second is the block
        // table. Else, the first block is the block table.
        if group_index == 0 {
            table[0] = BlockType::SuperBlock;
            table[1] = BlockType::BlockTable;
        } else {
            table[0] = BlockType::BlockTable;
        }
        assert(table@ =~= spec_initial_tags(blocks_in_group, group_index));
        let block_table = BlockTable { table, group_index };
        match block_table.write_table(dsfs) {
            Ok(request) => Ok((block_table, request)),
            Err(e) => Err(e),
        }
    }

    /// The read that fetches the table of group `group_index` from the device.
    pub fn read_request(dsfs: &Dsfs, group_index: GroupIndex) -> (r: Result<
        DeviceRequest,
        BlockTableError,
    >)
        ensures
            match r {
                Ok(request) => spec_read_request(
                    dsfs@.block_size,
                    dsfs@.blocks_in_group,
                    group_index,
                ) == Ok::<DeviceRequestView, BlockTableError>(request@),
                Err(e) => spec_read_request(dsfs@.block_size, dsfs@.blocks_in_group, group_index)
                    == Err::<DeviceRequestView, BlockTableError>(e),
            },
    {
        let len: usize = match usize::try_from(dsfs.blocks_in_group()) {
            Ok(len) => len,
            Err(_) => {
                return Err(BlockTableError::TypeCastError("u32", "usize"));
            },
        };
        match table_offset(dsfs.block_size(), dsfs.blocks_in_group(), group_index) {
            Ok(offset) => Ok(DeviceRequest::Read { offset, len }),
            Err(e) => Err(e),
        }
    }

    /// Creates the table of group `group_index` from the device's reply to
    /// [`BlockTable::read_request`] for that group.
    pub fn from_fs(dsfs: &Dsfs, group_index: GroupIndex, reply: DeviceReply) -> (r: Result<
        BlockTable,
        BlockTableError,
    >)
        ensures
            match r {
                Ok(table) => spec_from_fs(dsfs@.blocks_in_group, group_index, reply@) == Ok::<
                    BlockTableView,
                    BlockTableError,
                >(table@),
                Err(e) => spec_from_fs(dsfs@.blocks_in_group, group_index, reply@) == Err::<
                    BlockTableView,
                    BlockTableError,
                >(e),
            },
    {
        let table: Vec<BlockType> = match Self::new_table(dsfs.blocks_in_group()) {
            Ok(table) => table,
            Err(e) => {
                return Err(e);
            },
        };
        let mut block_table = BlockTable { table, group_index };
        match block_table.read_table(dsfs, reply) {
            Ok(_) => Ok(block_table),
            Err(err) => Err(err),
        }
    }

    /// The write that brings the device up to date with the table in memory:
    /// the whole table in one call.
    pub fn write_table(&self, dsfs: &Dsfs) -> (r: Result<DeviceRequest, BlockTableError>)
        ensures
            match r {
                Ok(request) => spec_write_request(dsfs@.block_size, dsfs@.blocks_in_group, self@)
                    == Ok::<DeviceRequestView, BlockTableError>(request@),
                Err(e) => spec_write_request(dsfs@.block_size, dsfs@.blocks_in_group, self@)
                    == Err::<DeviceRequestView, BlockTableError>(e),
            },
    {
        match table_offset(dsfs.block_size(), dsfs.blocks_in_group(), self.group_index) {
            Ok(offset) => Ok(DeviceRequest::Write { offset, bytes: self.table_as_bytes() }),
            Err(e) => Err(e),
        }
    }

    /// Whether the device's reply says that a table's write went through. A
    /// write that failed or came up short leaves the device behind the table in
    /// memory until it is tried again.
    pub fn written(reply: &DeviceReply) -> (r: Result<(), BlockTableError>)
        ensures
            r == if reply@ is Written {
                Ok::<(), BlockTableError>(())
            } else {
                Err(BlockTableError::FileError)
            },
    {
        match reply {
            DeviceReply::Written => Ok(()),
            _ => Err(BlockTableError::FileError),
        }
    }

    /// Replaces the table in memory by the one on the device, given the
    /// device's reply to [`BlockTable::read_request`] for this table's group.
    /// On failure the table in memory stays as it was.
    pub fn read_table(&mut self, dsfs: &Dsfs, reply: DeviceReply) -> (r: Result<
        (),
        BlockTableError,
    >)
        ensures
            match spec_from_fs(dsfs@.blocks_in_group, old(self)@.group_index, reply@) {
                Ok(table) => r == Ok::<(), BlockTableError>(()) && final(self)@ == table,
                Err(e) => r == Err::<(), BlockTableError>(e) && final(self)@ == old(self)@,
            },
    {
        let len: usize = match usize::try_from(dsfs.blocks_in_group()) {
            Ok(len) => len,
            Err(_) => {
                return Err(BlockTableError::TypeCastError("u32", "usize"));
            },
        };
        match reply {
            DeviceReply::Data(bytes) => {
                if bytes.len() != len {
                    return Err(BlockTableError::FileError);
                }
                match Self::table_from_bytes(bytes) {
                    Ok(table) => {
                        self.table = table;
                        Ok(())
                    },
                    Err(e) => Err(e),
                }
            },
            _ => Err(BlockTableError::FileError),
        }
    }

    /// Sets the tag of one block, in memory only: nothing reaches the device
    /// until the table is written.
    pub fn set_type(&mut self, block_in_group_index: u32, value: BlockType) -> (r: Result<
        (),
        BlockTableError,
    >)
        ensures
            match old(self)@.set_type(block_in_group_index, value) {
                Ok(table) => r == Ok::<(), BlockTableError>(()) && final(self)@ == table,
                Err(e) => r == Err::<(), BlockTableError>(e) && final(self)@ == old(self)@,
            },
    {
        proof {
            use_type_invariant(&*self);
        }
        let len: usize = self.table.len();
        if block_in_group_index as usize >= len {
            return Err(BlockTableError::OutOfBounds(block_in_group_index, len as u32));
        }
        self.table[block_in_group_index as usize] = value;
        Ok(())
    }

    /// Gets the tag of one block from the table in memory.
    pub fn get_type(&self, block_in_group_index: u32) -> (r: Result<BlockType, BlockTableError>)
        ensures
            r == self@.get_type(block_in_group_index),
    {
        proof {
            use_type_invariant(self);
        }
        let len: usize = self.table.len();
        if block_in_group_index as usize >= len {
            return Err(BlockTableError::OutOfBounds(block_in_group_index, len as u32));
        }
        Ok(self.table[block_in_group_index as usize])
    }
}

} // verus!
