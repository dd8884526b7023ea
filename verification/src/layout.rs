//! Where things lie on the device: how many groups it has, and at which block
//! and byte each group's table starts.
use vstd::prelude::*;

use crate::fs_structs::block_table::BlockTableError;

verus! {

/// The number of groups of `blocks_in_group` blocks that it takes to cover
/// `num_blocks` blocks: the quotient of the two, rounded up.
pub open spec fn spec_num_groups(num_blocks: u32, blocks_in_group: u32) -> nat
    recommends
        blocks_in_group != 0,
{
    ((num_blocks + blocks_in_group - 1) / (blocks_in_group as int)) as nat
}

/// The block that holds the table of group `group_index`. Group 0 keeps its
/// table in block 1, behind the superblock; every other group keeps it in its
/// own first block.
pub open spec fn spec_table_block_index(blocks_in_group: u32, group_index: u32) -> nat {
    if group_index == 0 {
        1
    } else {
        (blocks_in_group * group_index) as nat
    }
}

/// The byte at which the table of group `group_index` starts.
pub open spec fn spec_table_offset(block_size: u32, blocks_in_group: u32, group_index: u32) -> nat {
    spec_table_block_index(blocks_in_group, group_index) * (block_size as nat)
}

/// The byte offset of a group's table as a device offset, where it is one: a
/// device offset has 64 bits.
pub open spec fn spec_checked_table_offset(
    block_size: u32,
    blocks_in_group: u32,
    group_index: u32,
) -> Result<u64, BlockTableError> {
    let offset = spec_table_offset(block_size, blocks_in_group, group_index);
    if offset <= u64::MAX {
        Ok(offset as u64)
    } else {
        Err(BlockTableError::TypeCastError("u128", "u64"))
    }
}

/// The group count is the least number of groups that covers every block:
/// `n` groups cover the device, and one group fewer would not.
pub proof fn lemma_num_groups_is_ceiling(num_blocks: u32, blocks_in_group: u32)
    requires
        blocks_in_group != 0,
    ensures
        spec_num_groups(num_blocks, blocks_in_group) * blocks_in_group >= num_blocks,
        num_blocks > 0 ==> (spec_num_groups(num_blocks, blocks_in_group) - 1) * blocks_in_group
            < num_blocks,
        num_blocks == 0 ==> spec_num_groups(num_blocks, blocks_in_group) == 0,
        spec_num_groups(num_blocks, blocks_in_group) <= num_blocks,
{
    let a = num_blocks as int;
    let b = blocks_in_group as int;
    let n = (a + b - 1) / b;
    assert(n * b <= a + b - 1 < n * b + b && 0 <= n <= a) by (nonlinear_arith)
        requires
            n == (a + b - 1) / b,
            b >= 1,
            a >= 0,
    ;
    assert((n - 1) * b == n * b - b) by (nonlinear_arith);
}

/// Every group of the device has its table inside the device's block range,
/// so the table's byte offset fits in 64 bits.
pub proof fn lemma_table_offset_in_range(
    block_size: u32,
    num_blocks: u32,
    blocks_in_group: u32,
    group_index: u32,
)
    requires
        blocks_in_group != 0,
        group_index < spec_num_groups(num_blocks, blocks_in_group),
    ensures
        group_index > 0 ==> spec_table_block_index(blocks_in_group, group_index) < num_blocks,
        spec_table_block_index(blocks_in_group, group_index) <= u32::MAX,
        spec_table_offset(block_size, blocks_in_group, group_index) <= u64::MAX,
{
    lemma_num_groups_is_ceiling(num_blocks, blocks_in_group);
    let n = spec_num_groups(num_blocks, blocks_in_group) as int;
    let g = group_index as int;
    let b = blocks_in_group as int;
    let s = block_size as int;
    let index = spec_table_block_index(blocks_in_group, group_index) as int;
    if group_index > 0 {
        assert(b * g <= (n - 1) * b) by (nonlinear_arith)
            requires
                0 <= g <= n - 1,
                b >= 1,
        ;
    }
    assert(index * s <= 0xffff_ffff * 0xffff_ffff) by (nonlinear_arith)
        requires
            0 <= index <= 0xffff_ffff,
            0 <= s <= 0xffff_ffff,
    ;
}

/// Table blocks do not overlap: where a group has as many blocks as a block
/// has bytes, the table of a group ends before the table of any later group
/// starts. Blocks of one byte are the exception for group 0, whose table in
/// block 1 would then be where the table of group 1 is.
pub proof fn lemma_table_blocks_apart(block_size: u32, earlier: u32, later: u32)
    requires
        block_size != 0,
        earlier < later,
        earlier == 0 ==> block_size >= 2,
    ensures
        spec_table_offset(block_size, block_size, earlier) + block_size <= spec_table_offset(
            block_size,
            block_size,
            later,
        ),
{
    let s = block_size as int;
    let h = earlier as int;
    let g = later as int;
    if earlier == 0 {
        assert(1 * s + s <= (s * g) * s) by (nonlinear_arith)
            requires
                s >= 2,
                g >= 1,
        ;
    } else {
        assert((s * h) * s + s <= (s * g) * s) by (nonlinear_arith)
            requires
                s >= 1,
                1 <= h < g,
        ;
    }
}

/// Counts the groups of a device of `num_blocks` blocks.
pub fn num_groups(num_blocks: u32, blocks_in_group: u32) -> (n: u32)
    requires
        blocks_in_group != 0,
    ensures
        n == spec_num_groups(num_blocks, blocks_in_group),
{
    let whole: u32 = num_blocks / blocks_in_group;
    let rest: u32 = num_blocks % blocks_in_group;
    proof {
        let a = num_blocks as int;
        let b = blocks_in_group as int;
        assert((a + b - 1) / b == a / b + (if a % b == 0 { 0int } else { 1int }) && a / b <= a
            && (a % b != 0 ==> a / b < a)) by (nonlinear_arith)
            requires
                a >= 0,
                b >= 1,
        ;
    }
    if rest == 0 {
        whole
    } else {
        whole + 1
    }
}

/// Finds the block that holds the table of group `group_index`.
pub fn table_block_index(blocks_in_group: u32, group_index: u32) -> (index: u64)
    ensures
        index == spec_table_block_index(blocks_in_group, group_index),
{
    if group_index == 0 {
        1
    } else {
        proof {
            assert(blocks_in_group * group_index <= 0xffff_ffff * 0xffff_ffff) by (nonlinear_arith)
                requires
                    0 <= blocks_in_group <= 0xffff_ffff,
                    0 <= group_index <= 0xffff_ffff,
            ;
        }
        (blocks_in_group as u64) * (group_index as u64)
    }
}

/// Finds the byte at which the table of group `group_index` starts. The
/// product is taken in 128 bits, where it cannot overflow, and must then fit a
/// device offset.
pub fn table_offset(block_size: u32, blocks_in_group: u32, group_index: u32) -> (r: Result<
    u64,
    BlockTableError,
>)
    ensures
        r == spec_checked_table_offset(block_size, blocks_in_group, group_index),
{
    let index: u64 = table_block_index(blocks_in_group, group_index);
    proof {
        assert(index * block_size <= 0xffff_ffff_ffff_ffff * 0xffff_ffff) by (nonlinear_arith)
            requires
                0 <= index <= 0xffff_ffff_ffff_ffff,
                0 <= block_size <= 0xffff_ffff,
        ;
    }
    let wide: u128 = (index as u128) * (block_size as u128);
    match u64::try_from(wide) {
        Ok(offset) => Ok(offset),
        Err(_) => Err(BlockTableError::TypeCastError("u128", "u64")),
    }
}

} // verus!
