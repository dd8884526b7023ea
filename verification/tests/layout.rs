use dsfs::fs_structs::block_table::BlockTableError;
use dsfs::layout::num_groups;
use dsfs::layout::table_block_index;
use dsfs::layout::table_offset;

#[test]
fn group_count_rounds_up() {
    assert_eq!(num_groups(8193, 4096), 3);
    assert_eq!(num_groups(8192, 4096), 2);
    assert_eq!(num_groups(8191, 4096), 2);
    assert_eq!(num_groups(4097, 4096), 2);
    assert_eq!(num_groups(4096, 4096), 1);
    assert_eq!(num_groups(1, 4096), 1);
}

#[test]
fn group_count_of_an_empty_device_is_zero() {
    assert_eq!(num_groups(0, 4096), 0);
    assert_eq!(num_groups(0, 1), 0);
}

#[test]
fn group_count_with_one_block_per_group() {
    assert_eq!(num_groups(7, 1), 7);
    assert_eq!(num_groups(u32::MAX, 1), u32::MAX);
}

#[test]
fn group_count_at_the_largest_values() {
    assert_eq!(num_groups(u32::MAX, u32::MAX), 1);
    assert_eq!(num_groups(u32::MAX, 2), 0x8000_0000);
    assert_eq!(num_groups(u32::MAX - 1, u32::MAX), 1);
}

#[test]
fn group_count_covers_every_block_and_no_more() {
    for blocks_in_group in 1u32..40 {
        for num_blocks in 0u32..200 {
            let n = num_groups(num_blocks, blocks_in_group) as u64;
            assert!(n * blocks_in_group as u64 >= num_blocks as u64);
            if num_blocks > 0 {
                assert!((n - 1) * (blocks_in_group as u64) < num_blocks as u64);
            }
        }
    }
}

#[test]
fn single_group_device_has_its_table_in_block_one() {
    let block_size = 4096;
    let num_blocks = 1024;
    let blocks_in_group = block_size;
    assert_eq!(num_groups(num_blocks, blocks_in_group), 1);
    assert_eq!(table_block_index(blocks_in_group, 0), 1);
    assert_eq!(table_offset(block_size, blocks_in_group, 0), Ok(4096));
}

#[test]
fn table_of_group_zero_is_always_in_block_one() {
    assert_eq!(table_block_index(1, 0), 1);
    assert_eq!(table_block_index(512, 0), 1);
    assert_eq!(table_block_index(u32::MAX, 0), 1);
    assert_eq!(table_block_index(0, 0), 1);
}

#[test]
fn table_of_a_later_group_is_in_the_first_block_of_the_group() {
    assert_eq!(table_block_index(4096, 1), 4096);
    assert_eq!(table_block_index(4096, 2), 8192);
    assert_eq!(table_block_index(512, 7), 3584);
    assert_eq!(table_block_index(1, 9), 9);
    assert_eq!(
        table_block_index(u32::MAX, u32::MAX),
        u32::MAX as u64 * u32::MAX as u64
    );
}

#[test]
fn table_offset_is_block_index_times_block_size() {
    assert_eq!(table_offset(512, 512, 0), Ok(512));
    assert_eq!(table_offset(512, 512, 1), Ok(512 * 512));
    assert_eq!(table_offset(4096, 4096, 2), Ok(33_554_432));
    assert_eq!(table_offset(4096, 4096, 3), Ok(3 * 4096 * 4096));
}

#[test]
fn table_offset_beyond_four_gibibytes_does_not_wrap() {
    assert_eq!(table_offset(4096, 4096, 256), Ok(1u64 << 32));
    assert_eq!(table_offset(65536, 65536, 65535), Ok(65535u64 << 32));
}

#[test]
fn table_offset_that_fits_no_device_offset_is_a_cast_error() {
    assert_eq!(
        table_offset(u32::MAX, u32::MAX, u32::MAX),
        Err(BlockTableError::TypeCastError("u128", "u64"))
    );
    assert_eq!(
        table_offset(u32::MAX, u32::MAX, 0x1_0001),
        Err(BlockTableError::TypeCastError("u128", "u64"))
    );
}

#[test]
fn table_offset_at_the_edge_of_sixty_four_bits() {
    // 2^17 * (2^30 - 1) * 2^17 is 2^64 - 2^34; one group further is 2^64.
    assert_eq!(
        table_offset(0x2_0000, 0x2_0000, 0x3fff_ffff),
        Ok(u64::MAX - (1u64 << 34) + 1)
    );
    assert_eq!(
        table_offset(0x2_0000, 0x2_0000, 0x4000_0000),
        Err(BlockTableError::TypeCastError("u128", "u64"))
    );
    assert_eq!(
        table_offset(0x1_0000, 0x1_0000, 0xffff_ffff),
        Ok(0xffff_ffffu64 << 32)
    );
}
