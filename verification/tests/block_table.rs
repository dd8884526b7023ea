use dsfs::device::DeviceReply;
use dsfs::device::DeviceRequest;
use dsfs::dsfs::Dsfs;
use dsfs::dsfs::MountStep;
use dsfs::fs_structs::block_table::BlockTable;
use dsfs::fs_structs::block_table::BlockTableError;
use dsfs::fs_structs::block_table::BlockType;
use dsfs::fs_structs::super_block::SuperBlock;

const ALL_TAGS: [BlockType; 7] = [
    BlockType::Free,
    BlockType::SuperBlock,
    BlockType::BlockTable,
    BlockType::Inode,
    BlockType::Data,
    BlockType::Error,
    BlockType::IndirectionTable,
];

/// A `Dsfs` with the given block size and no group, for its geometry.
fn geometry(block_size: u32) -> Dsfs {
    match Dsfs::load(SuperBlock { block_size, num_blocks: 0 }) {
        MountStep::Mounted(dsfs) => dsfs,
        _ => panic!("a device without blocks has no table to load"),
    }
}

/// The table that `bytes` stand for, as group `group_index` of a device whose
/// blocks are as long as `bytes`.
fn table_of(group_index: u32, bytes: &[u8]) -> BlockTable {
    let dsfs = geometry(bytes.len() as u32);
    match BlockTable::from_fs(&dsfs, group_index, DeviceReply::Data(bytes.to_vec())) {
        Ok(table) => table,
        Err(e) => panic!("{:?}", e),
    }
}

#[test]
fn tag_bytes_are_zero_to_six() {
    assert_eq!(BlockType::Free.to_byte(), 0x00);
    assert_eq!(BlockType::SuperBlock.to_byte(), 0x01);
    assert_eq!(BlockType::BlockTable.to_byte(), 0x02);
    assert_eq!(BlockType::Inode.to_byte(), 0x03);
    assert_eq!(BlockType::Data.to_byte(), 0x04);
    assert_eq!(BlockType::Error.to_byte(), 0x05);
    assert_eq!(BlockType::IndirectionTable.to_byte(), 0x06);
}

#[test]
fn bytes_zero_to_six_decode_to_their_tags() {
    assert_eq!(BlockType::try_from(0x00), Ok(BlockType::Free));
    assert_eq!(BlockType::try_from(0x01), Ok(BlockType::SuperBlock));
    assert_eq!(BlockType::try_from(0x02), Ok(BlockType::BlockTable));
    assert_eq!(BlockType::try_from(0x03), Ok(BlockType::Inode));
    assert_eq!(BlockType::try_from(0x04), Ok(BlockType::Data));
    assert_eq!(BlockType::try_from(0x05), Ok(BlockType::Error));
    assert_eq!(BlockType::try_from(0x06), Ok(BlockType::IndirectionTable));
}

#[test]
fn every_other_byte_is_rejected() {
    for byte in 0x07..=0xffu8 {
        assert_eq!(
            BlockType::try_from(byte),
            Err(BlockTableError::InvalidBlockType(byte))
        );
    }
}

#[test]
fn tag_decoding_undoes_encoding() {
    for tag in ALL_TAGS {
        assert_eq!(BlockType::try_from(tag.to_byte()), Ok(tag));
    }
    for byte in 0x00..=0x06u8 {
        assert_eq!(BlockType::try_from(byte).map(|tag| tag.to_byte()), Ok(byte));
    }
}

#[test]
fn conversion_through_try_into_is_the_same() {
    let tag: Result<BlockType, BlockTableError> = 0x04u8.try_into();
    assert_eq!(tag, Ok(BlockType::Data));
    let bad: Result<BlockType, BlockTableError> = 0x07u8.try_into();
    assert_eq!(bad, Err(BlockTableError::InvalidBlockType(0x07)));
}

#[test]
fn new_table_is_all_free() {
    assert_eq!(BlockTable::new_table(0), Ok(Vec::new()));
    assert_eq!(BlockTable::new_table(1), Ok(vec![BlockType::Free]));
    assert_eq!(BlockTable::new_table(5), Ok(vec![BlockType::Free; 5]));
    let table = BlockTable::new_table(4096).unwrap();
    assert_eq!(table.len(), 4096);
    assert!(table.iter().all(|tag| *tag == BlockType::Free));
}

#[test]
fn table_from_bytes_decodes_each_byte_in_order() {
    assert_eq!(
        BlockTable::table_from_bytes(vec![1, 2, 0, 3, 4, 5, 6, 0]),
        Ok(vec![
            BlockType::SuperBlock,
            BlockType::BlockTable,
            BlockType::Free,
            BlockType::Inode,
            BlockType::Data,
            BlockType::Error,
            BlockType::IndirectionTable,
            BlockType::Free,
        ])
    );
    assert_eq!(BlockTable::table_from_bytes(Vec::new()), Ok(Vec::new()));
}

#[test]
fn table_from_bytes_reports_the_first_invalid_byte() {
    assert_eq!(
        BlockTable::table_from_bytes(vec![0, 1, 7, 9]),
        Err(BlockTableError::InvalidBlockType(7))
    );
    assert_eq!(
        BlockTable::table_from_bytes(vec![0xff, 1, 7, 9]),
        Err(BlockTableError::InvalidBlockType(0xff))
    );
    assert_eq!(
        BlockTable::table_from_bytes(vec![0, 0, 0, 0x80]),
        Err(BlockTableError::InvalidBlockType(0x80))
    );
}

#[test]
fn table_as_bytes_is_one_byte_per_tag() {
    let table = table_of(3, &[6, 5, 4, 3, 2, 1, 0]);
    assert_eq!(table.table_as_bytes(), vec![6, 5, 4, 3, 2, 1, 0]);
    assert_eq!(table.group_index(), 3);
    let single = table_of(0, &[5]);
    assert_eq!(single.table_as_bytes(), vec![5]);
}

#[test]
fn bytes_round_trip_through_a_table() {
    let bytes: Vec<u8> = (0..700u32).map(|i| (i % 7) as u8).collect();
    let tags = BlockTable::table_from_bytes(bytes.clone()).unwrap();
    assert_eq!(tags.len(), 700);
    for (i, tag) in tags.iter().enumerate() {
        assert_eq!(tag.to_byte(), bytes[i]);
    }
    assert_eq!(table_of(1, &bytes).table_as_bytes(), bytes);
}

#[test]
fn from_fs_decodes_a_block() {
    let dsfs = geometry(4);
    let table = BlockTable::from_fs(&dsfs, 2, DeviceReply::Data(vec![2, 4, 4, 0])).unwrap();
    assert_eq!(table.group_index(), 2);
    assert_eq!(table.get_type(0), Ok(BlockType::BlockTable));
    assert_eq!(table.get_type(1), Ok(BlockType::Data));
    assert_eq!(table.get_type(2), Ok(BlockType::Data));
    assert_eq!(table.get_type(3), Ok(BlockType::Free));
    assert_eq!(table.get_type(4), Err(BlockTableError::OutOfBounds(4, 4)));
}

#[test]
fn from_fs_fails_on_a_failed_read() {
    let dsfs = geometry(4);
    assert_eq!(
        BlockTable::from_fs(&dsfs, 0, DeviceReply::Failed).err(),
        Some(BlockTableError::FileError)
    );
    assert_eq!(
        BlockTable::from_fs(&dsfs, 0, DeviceReply::Written).err(),
        Some(BlockTableError::FileError)
    );
}

#[test]
fn from_fs_fails_on_a_block_of_the_wrong_length() {
    let dsfs = geometry(4);
    assert_eq!(
        BlockTable::from_fs(&dsfs, 0, DeviceReply::Data(vec![1, 2, 0])).err(),
        Some(BlockTableError::FileError)
    );
    assert_eq!(
        BlockTable::from_fs(&dsfs, 0, DeviceReply::Data(vec![1, 2, 0, 0, 0])).err(),
        Some(BlockTableError::FileError)
    );
    assert_eq!(
        BlockTable::from_fs(&dsfs, 0, DeviceReply::Data(Vec::new())).err(),
        Some(BlockTableError::FileError)
    );
    // A short block fails as a read even where its bytes are corrupt too.
    assert_eq!(
        BlockTable::from_fs(&dsfs, 0, DeviceReply::Data(vec![7, 7])).err(),
        Some(BlockTableError::FileError)
    );
}

#[test]
fn from_fs_rejects_a_corrupt_byte_anywhere() {
    let dsfs = geometry(16);
    let valid: Vec<u8> = vec![1, 2, 0, 0, 3, 3, 4, 4, 4, 0, 0, 0, 6, 5, 0, 0];
    assert!(BlockTable::from_fs(&dsfs, 0, DeviceReply::Data(valid.clone())).is_ok());
    for at in 0..valid.len() {
        let mut corrupt = valid.clone();
        corrupt[at] = 0x07;
        assert_eq!(
            BlockTable::from_fs(&dsfs, 0, DeviceReply::Data(corrupt)).err(),
            Some(BlockTableError::InvalidBlockType(0x07))
        );
    }
}

#[test]
fn from_fs_reports_the_first_of_several_corrupt_bytes() {
    let dsfs = geometry(6);
    assert_eq!(
        BlockTable::from_fs(&dsfs, 1, DeviceReply::Data(vec![2, 0, 0x20, 0, 0x07, 0x99])).err(),
        Some(BlockTableError::InvalidBlockType(0x20))
    );
}

#[test]
fn read_request_covers_the_table_block() {
    let dsfs = geometry(4096);
    assert_eq!(
        BlockTable::read_request(&dsfs, 0),
        Ok(DeviceRequest::Read { offset: 4096, len: 4096 })
    );
    assert_eq!(
        BlockTable::read_request(&dsfs, 1),
        Ok(DeviceRequest::Read { offset: 4096 * 4096, len: 4096 })
    );
    assert_eq!(
        BlockTable::read_request(&dsfs, 5),
        Ok(DeviceRequest::Read { offset: 5 * 4096 * 4096, len: 4096 })
    );
}

#[test]
fn read_request_past_every_device_offset_is_a_cast_error() {
    let dsfs = geometry(u32::MAX);
    assert_eq!(
        BlockTable::read_request(&dsfs, u32::MAX),
        Err(BlockTableError::TypeCastError("u128", "u64"))
    );
}

#[test]
fn write_table_holds_the_whole_table_at_its_offset() {
    let dsfs = geometry(4);
    let first = table_of(0, &[1, 2, 4, 0]);
    assert_eq!(
        first.write_table(&dsfs),
        Ok(DeviceRequest::Write { offset: 4, bytes: vec![1, 2, 4, 0] })
    );
    let third = table_of(2, &[2, 3, 0, 6]);
    assert_eq!(
        third.write_table(&dsfs),
        Ok(DeviceRequest::Write { offset: 32, bytes: vec![2, 3, 0, 6] })
    );
}

#[test]
fn write_table_past_every_device_offset_is_a_cast_error() {
    let dsfs = geometry(0x2_0000);
    let table = table_of(0x4000_0000, &vec![0u8; 0x2_0000]);
    assert_eq!(table.group_index(), 0x4000_0000);
    assert_eq!(
        table.write_table(&dsfs),
        Err(BlockTableError::TypeCastError("u128", "u64"))
    );
    let last = table_of(0x3fff_ffff, &vec![0u8; 0x2_0000]);
    assert_eq!(
        last.write_table(&dsfs),
        Ok(DeviceRequest::Write {
            offset: u64::MAX - (1u64 << 34) + 1,
            bytes: vec![0u8; 0x2_0000],
        })
    );
}

#[test]
fn written_tells_a_completed_write_from_the_rest() {
    assert_eq!(BlockTable::written(&DeviceReply::Written), Ok(()));
    assert_eq!(
        BlockTable::written(&DeviceReply::Failed),
        Err(BlockTableError::FileError)
    );
    assert_eq!(
        BlockTable::written(&DeviceReply::Data(vec![1, 2])),
        Err(BlockTableError::FileError)
    );
}

#[test]
fn write_then_read_gives_the_same_table() {
    let dsfs = geometry(8);
    let mut table = table_of(1, &[2, 0, 0, 0, 0, 0, 0, 0]);
    assert_eq!(table.set_type(3, BlockType::Inode), Ok(()));
    assert_eq!(table.set_type(7, BlockType::IndirectionTable), Ok(()));
    let (offset, bytes) = match table.write_table(&dsfs) {
        Ok(DeviceRequest::Write { offset, bytes }) => (offset, bytes),
        other => panic!("{:?}", other),
    };
    assert_eq!(
        BlockTable::read_request(&dsfs, 1),
        Ok(DeviceRequest::Read { offset, len: bytes.len() })
    );
    let again = BlockTable::from_fs(&dsfs, 1, DeviceReply::Data(bytes)).unwrap();
    assert_eq!(again.group_index(), 1);
    for index in 0..8 {
        assert_eq!(again.get_type(index), table.get_type(index));
    }
    assert_eq!(again.table_as_bytes(), vec![2, 0, 0, 3, 0, 0, 0, 6]);
}

#[test]
fn create_for_group_zero_reserves_two_blocks() {
    let dsfs = geometry(6);
    let (table, request) = BlockTable::create_and_init(&dsfs, 0).unwrap();
    assert_eq!(table.group_index(), 0);
    assert_eq!(table.get_type(0), Ok(BlockType::SuperBlock));
    assert_eq!(table.get_type(1), Ok(BlockType::BlockTable));
    for index in 2..6 {
        assert_eq!(table.get_type(index), Ok(BlockType::Free));
    }
    assert_eq!(
        request,
        DeviceRequest::Write { offset: 6, bytes: vec![1, 2, 0, 0, 0, 0] }
    );
}

#[test]
fn create_for_a_later_group_reserves_one_block() {
    let dsfs = geometry(6);
    for group_index in [1u32, 2, 9] {
        let (table, request) = BlockTable::create_and_init(&dsfs, group_index).unwrap();
        assert_eq!(table.group_index(), group_index);
        assert_eq!(table.get_type(0), Ok(BlockType::BlockTable));
        for index in 1..6 {
            assert_eq!(table.get_type(index), Ok(BlockType::Free));
        }
        assert_eq!(
            request,
            DeviceRequest::Write {
                offset: 36 * group_index as u64,
                bytes: vec![2, 0, 0, 0, 0, 0],
            }
        );
    }
}

#[test]
fn create_with_the_smallest_groups() {
    let two = geometry(2);
    let (table, request) = BlockTable::create_and_init(&two, 0).unwrap();
    assert_eq!(table.table_as_bytes(), vec![1, 2]);
    assert_eq!(request, DeviceRequest::Write { offset: 2, bytes: vec![1, 2] });
    let one = geometry(1);
    let (table, request) = BlockTable::create_and_init(&one, 3).unwrap();
    assert_eq!(table.table_as_bytes(), vec![2]);
    assert_eq!(request, DeviceRequest::Write { offset: 3, bytes: vec![2] });
}

#[test]
fn create_past_every_device_offset_is_a_cast_error() {
    let dsfs = geometry(0x2_0000);
    assert_eq!(
        BlockTable::create_and_init(&dsfs, 0x4000_0000).err(),
        Some(BlockTableError::TypeCastError("u128", "u64"))
    );
}

#[test]
fn index_equal_to_the_length_is_out_of_bounds() {
    let mut table = table_of(0, &[1, 2, 0, 0, 0]);
    assert_eq!(table.get_type(5), Err(BlockTableError::OutOfBounds(5, 5)));
    assert_eq!(
        table.set_type(5, BlockType::Data),
        Err(BlockTableError::OutOfBounds(5, 5))
    );
    assert_eq!(table.get_type(6), Err(BlockTableError::OutOfBounds(6, 5)));
    assert_eq!(
        table.set_type(u32::MAX, BlockType::Data),
        Err(BlockTableError::OutOfBounds(u32::MAX, 5))
    );
    assert_eq!(table.table_as_bytes(), vec![1, 2, 0, 0, 0]);
}

#[test]
fn index_just_below_the_length_is_in_bounds() {
    let mut table = table_of(0, &[1, 2, 0, 0, 0]);
    assert_eq!(table.get_type(4), Ok(BlockType::Free));
    assert_eq!(table.set_type(4, BlockType::Data), Ok(()));
    assert_eq!(table.get_type(4), Ok(BlockType::Data));
    assert_eq!(table.table_as_bytes(), vec![1, 2, 0, 0, 4]);
}

#[test]
fn bounds_hold_for_a_full_size_table() {
    let dsfs = geometry(4096);
    let (mut table, _) = BlockTable::create_and_init(&dsfs, 0).unwrap();
    assert_eq!(table.set_type(4095, BlockType::Error), Ok(()));
    assert_eq!(table.get_type(4095), Ok(BlockType::Error));
    assert_eq!(
        table.set_type(4096, BlockType::Error),
        Err(BlockTableError::OutOfBounds(4096, 4096))
    );
    assert_eq!(table.get_type(4096), Err(BlockTableError::OutOfBounds(4096, 4096)));
}

#[test]
fn a_table_of_one_entry_has_one_index_in_bounds() {
    let mut table = table_of(7, &[2]);
    assert_eq!(table.get_type(0), Ok(BlockType::BlockTable));
    assert_eq!(table.set_type(0, BlockType::Error), Ok(()));
    assert_eq!(table.get_type(1), Err(BlockTableError::OutOfBounds(1, 1)));
    assert_eq!(
        table.set_type(1, BlockType::Data),
        Err(BlockTableError::OutOfBounds(1, 1))
    );
    assert_eq!(table.table_as_bytes(), vec![5]);
}

#[test]
fn set_type_changes_one_entry_only() {
    let mut table = table_of(4, &[2, 0, 0, 0]);
    for (k, tag) in ALL_TAGS.iter().enumerate() {
        assert_eq!(table.set_type(2, *tag), Ok(()));
        assert_eq!(table.get_type(2), Ok(*tag));
        assert_eq!(table.table_as_bytes(), vec![2, 0, k as u8, 0]);
    }
    assert_eq!(table.group_index(), 4);
}

#[test]
fn read_table_replaces_the_table_in_memory() {
    let dsfs = geometry(4);
    let mut table = table_of(1, &[2, 0, 0, 0]);
    assert_eq!(table.set_type(1, BlockType::Data), Ok(()));
    assert_eq!(
        table.read_table(&dsfs, DeviceReply::Data(vec![2, 3, 3, 0])),
        Ok(())
    );
    assert_eq!(table.table_as_bytes(), vec![2, 3, 3, 0]);
    assert_eq!(table.group_index(), 1);
}

#[test]
fn read_table_keeps_the_table_on_failure() {
    let dsfs = geometry(4);
    let mut table = table_of(1, &[2, 4, 0, 0]);
    assert_eq!(
        table.read_table(&dsfs, DeviceReply::Failed),
        Err(BlockTableError::FileError)
    );
    assert_eq!(
        table.read_table(&dsfs, DeviceReply::Data(vec![2, 0, 9, 0])),
        Err(BlockTableError::InvalidBlockType(9))
    );
    assert_eq!(
        table.read_table(&dsfs, DeviceReply::Data(vec![2, 0])),
        Err(BlockTableError::FileError)
    );
    assert_eq!(table.table_as_bytes(), vec![2, 4, 0, 0]);
}
