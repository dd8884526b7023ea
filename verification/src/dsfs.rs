//! The group manager: the geometry of a mounted device and the table of every
//! group.
//!
//! A [`Dsfs`] comes out of a mount, which [`Dsfs::load`] or [`Dsfs::create`]
//! starts and [`Mount::step`] carries on, one device request at a time. Once
//! mounted it answers for every group: [`Dsfs::table`] to look tags up,
//! [`Dsfs::set_type`] to change one in memory, [`Dsfs::write_table`] for the
//! write that makes the changes of a group last. Dropping it unmounts.
//!
//! Everything here is sequential. Changing tags takes `&mut`, so a caller that
//! serves requests from several threads keeps the `Dsfs` behind a lock, and
//! holds it from the first change of a group's tags until that group's write
//! has completed.
use vstd::prelude::*;

use crate::device::DeviceReply;
use crate::device::DeviceReplyView;
use crate::device::DeviceRequest;
use crate::device::DeviceRequestView;
use crate::fs_structs::block_table::spec_from_fs;
use crate::fs_structs::block_table::spec_initial_tags;
use crate::fs_structs::block_table::spec_table_as_bytes;
use crate::fs_structs::block_table::BlockTable;
use crate::fs_structs::block_table::BlockTableError;
use crate::fs_structs::block_table::BlockTableView;
use crate::fs_structs::block_table::BlockType;
use crate::fs_structs::super_block::SuperBlock;
use crate::layout::lemma_table_offset_in_range;
use crate::layout::num_groups;
use crate::layout::spec_num_groups;
use crate::layout::spec_table_offset;
use crate::GroupIndex;

verus! {

/// The geometry of a device and the tables of its groups.
///
/// While a device is being mounted the tables of its first groups are in and
/// the rest are still to come; a mounted `Dsfs` holds one table per group.
pub struct Dsfs {
    block_size: u32,
    num_blocks: u32,
    blocks_in_group: u32,
    block_table: Vec<BlockTable>,
}

/// What a [`Dsfs`] stands for.
pub struct DsfsView {
    /// Bytes per block.
    pub block_size: u32,
    /// Blocks on the device.
    pub num_blocks: u32,
    /// Blocks per group. A group's table fills one block with one byte per
    /// entry, so this is the block size.
    pub blocks_in_group: u32,
    /// The tables that are in, by group index.
    pub tables: Seq<BlockTableView>,
}

impl DsfsView {
    /// The number of groups on the device.
    pub open spec fn num_groups(self) -> nat {
        spec_num_groups(self.num_blocks, self.blocks_in_group)
    }

    /// What holds of every `Dsfs`: a group has as many blocks as a block has
    /// bytes, blocks are not empty, and the table at position `g` is that of
    /// group `g` and has one entry per block of the group.
    pub open spec fn wf(self) -> bool {
        &&& self.blocks_in_group == self.block_size
        &&& self.block_size != 0
        &&& self.tables.len() <= self.num_groups()
        &&& forall|g: int|
            0 <= g < self.tables.len() ==> (#[trigger] self.tables[g]).group_index == g
                && self.tables[g].tags.len() == self.blocks_in_group
    }

    /// Whether the table of every group is in.
    pub open spec fn mounted(self) -> bool {
        self.tables.len() == self.num_groups()
    }

    /// The byte at which the table of group `group_index` starts.
    pub open spec fn table_offset(self, group_index: GroupIndex) -> nat {
        spec_table_offset(self.block_size, self.blocks_in_group, group_index)
    }

    /// The read that fetches the table of group `group_index`.
    pub open spec fn table_read(self, group_index: GroupIndex) -> DeviceRequestView {
        DeviceRequestView::Read {
            offset: self.table_offset(group_index) as u64,
            len: self.blocks_in_group as usize,
        }
    }

    /// The table that creation gives group `group_index`.
    pub open spec fn fresh_table(self, group_index: GroupIndex) -> BlockTableView {
        BlockTableView {
            group_index,
            tags: spec_initial_tags(self.blocks_in_group, group_index),
        }
    }

    /// The write that persists the fresh table of group `group_index`.
    pub open spec fn fresh_table_write(self, group_index: GroupIndex) -> DeviceRequestView {
        DeviceRequestView::Write {
            offset: self.table_offset(group_index) as u64,
            bytes: spec_table_as_bytes(self.fresh_table(group_index).tags),
        }
    }
}

impl View for Dsfs {
    type V = DsfsView;

    closed spec fn view(&self) -> DsfsView {
        DsfsView {
            block_size: self.block_size,
            num_blocks: self.num_blocks,
            blocks_in_group: self.blocks_in_group,
            tables: Seq::new(self.block_table@.len(), |g: int| self.block_table@[g]@),
        }
    }
}

/// A mount that is under way: the tables of the first groups are in, and a
/// request for the next group is with the device.
pub struct Mount {
    dsfs: Dsfs,
    pending: Option<BlockTable>,
}

/// What a [`Mount`] stands for.
pub struct MountView {
    /// The geometry, and the tables that are in so far.
    pub dsfs: DsfsView,
    /// Whether the tables are being created rather than loaded.
    pub creating: bool,
}

impl MountView {
    /// The group whose table is being fetched or persisted: the first one
    /// whose table is not in yet.
    pub open spec fn group(self) -> GroupIndex {
        self.dsfs.tables.len() as GroupIndex
    }

    /// The request that is with the device: when loading, the read of the
    /// group's table; when creating, the write of its fresh table.
    pub open spec fn request(self) -> DeviceRequestView {
        if self.creating {
            self.dsfs.fresh_table_write(self.group())
        } else {
            self.dsfs.table_read(self.group())
        }
    }

    /// What holds of every `Mount`: its `Dsfs` is well formed and at least one
    /// table is still to come.
    pub open spec fn wf(self) -> bool {
        &&& self.dsfs.wf()
        &&& self.dsfs.tables.len() < self.dsfs.num_groups()
    }
}

/// Where a mount stands after a step.
pub enum MountStep {
    /// The request is to be performed on the device, and its reply handed to
    /// [`Mount::step`].
    Pending(Mount, DeviceRequest),
    /// Every group's table is in.
    Mounted(Dsfs),
    /// A table could not be loaded or created. The mount is over: no group is
    /// passed over.
    Failed(BlockTableError),
}

/// What a [`MountStep`] stands for.
pub enum MountStepView {
    Pending(MountView, DeviceRequestView),
    Mounted(DsfsView),
    Failed(BlockTableError),
}

impl View for MountStep {
    type V = MountStepView;

    open spec fn view(&self) -> MountStepView {
        match *self {
            MountStep::Pending(mount, request) => MountStepView::Pending(mount@, request@),
            MountStep::Mounted(dsfs) => MountStepView::Mounted(dsfs@),
            MountStep::Failed(e) => MountStepView::Failed(e),
        }
    }
}

impl MountStepView {
    /// What holds after every step: a pending mount is well formed and comes
    /// with its own request, and a mounted `Dsfs` is well formed and complete.
    pub open spec fn wf(self) -> bool {
        match self {
            MountStepView::Pending(mount, request) => mount.wf() && request == mount.request(),
            MountStepView::Mounted(dsfs) => dsfs.wf() && dsfs.mounted(),
            MountStepView::Failed(_) => true,
        }
    }
}

/// A device's geometry as its superblock gives it, with no table in yet. A
/// group has as many blocks as a block has bytes.
pub open spec fn spec_geometry(super_block: SuperBlock) -> DsfsView {
    DsfsView {
        block_size: super_block.block_size,
        num_blocks: super_block.num_blocks,
        blocks_in_group: super_block.block_size,
        tables: Seq::empty(),
    }
}

/// The error of a mount whose superblock gives blocks of no bytes: the block
/// size divides the device into groups, and zero is no divisor.
pub open spec fn spec_zero_block_size() -> BlockTableError {
    BlockTableError::TypeCastError("u32", "NonZeroU32")
}

/// How a mount starts from the superblock. A block size of zero fails it
/// before anything is asked of the device; else it starts from the
/// superblock's geometry with no table in.
pub open spec fn spec_mount(super_block: SuperBlock, creating: bool) -> MountStepView {
    if super_block.block_size == 0 {
        MountStepView::Failed(spec_zero_block_size())
    } else {
        spec_advance(spec_geometry(super_block), creating)
    }
}

/// Taking in the table of the next group keeps a `Dsfs` well formed.
pub proof fn lemma_push_table_wf(dsfs: DsfsView, table: BlockTableView)
    requires
        dsfs.wf(),
        dsfs.tables.len() < dsfs.num_groups(),
        table.group_index == dsfs.tables.len(),
        table.tags.len() == dsfs.blocks_in_group,
    ensures
        (DsfsView { tables: dsfs.tables.push(table), ..dsfs }).wf(),
{
    let grown = DsfsView { tables: dsfs.tables.push(table), ..dsfs };
    assert forall|g: int| 0 <= g < grown.tables.len() implies (#[trigger] grown.tables[g]).group_index
        == g && grown.tables[g].tags.len() == grown.blocks_in_group by {
        if g < dsfs.tables.len() {
            assert(grown.tables[g] == dsfs.tables[g]);
        }
    }
}

/// Where a mount goes on from `dsfs`: it is over when every group's table is in,
/// and else turns to the next group.
pub open spec fn spec_advance(dsfs: DsfsView, creating: bool) -> MountStepView {
    if dsfs.mounted() {
        MountStepView::Mounted(dsfs)
    } else {
        let mount = MountView { dsfs, creating };
        MountStepView::Pending(mount, mount.request())
    }
}

/// The table that the device's `reply` gives the group that `mount` is at.
/// When loading, it is the table that the reply's bytes stand for. When
/// creating, it is the fresh table, provided its write went through.
pub open spec fn spec_step_table(mount: MountView, reply: DeviceReplyView) -> Result<
    BlockTableView,
    BlockTableError,
> {
    if mount.creating {
        if reply is Written {
            Ok(mount.dsfs.fresh_table(mount.group()))
        } else {
            Err(BlockTableError::FileError)
        }
    } else {
        spec_from_fs(mount.dsfs.blocks_in_group, mount.group(), reply)
    }
}

/// One step of a mount: the device's `reply` to the outstanding request
/// either fails the mount or adds the group's table, after which the mount
/// goes on with the next group or is complete.
pub open spec fn spec_step(mount: MountView, reply: DeviceReplyView) -> MountStepView {
    match spec_step_table(mount, reply) {
        Ok(table) => spec_advance(
            DsfsView { tables: mount.dsfs.tables.push(table), ..mount.dsfs },
            mount.creating,
        ),
        Err(e) => MountStepView::Failed(e),
    }
}

impl View for Mount {
    type V = MountView;

    closed spec fn view(&self) -> MountView {
        MountView { dsfs: self.dsfs@, creating: self.pending is Some }
    }
}

impl Mount {
    #[verifier::type_invariant]
    spec fn inv(self) -> bool {
        &&& self@.wf()
        &&& self.pending matches Some(table) ==> table@ == self@.dsfs.fresh_table(self@.group())
    }

    /// The geometry, and the tables that are in so far.
    pub fn dsfs(&self) -> (dsfs: &Dsfs)
        ensures
            dsfs@ == self@.dsfs,
            self@.wf(),
    {
        proof {
            use_type_invariant(self);
        }
        &self.dsfs
    }

    /// Takes the device's reply to the outstanding request and decides how the
    /// mount goes on.
    pub fn step(self, reply: DeviceReply) -> (next: MountStep)
        ensures
            next@ == spec_step(self@, reply@),
            next@.wf(),
    {
        proof {
            use_type_invariant(&self);
        }
        let Mount { dsfs, pending } = self;
        let mut dsfs = dsfs;
        let group_index: GroupIndex = dsfs.loaded();
        match pending {
            Some(table) => {
                match BlockTable::written(&reply) {
                    Ok(_) => {
                        dsfs.push_table(table);
                        Dsfs::advance(dsfs, true)
                    },
                    Err(e) => MountStep::Failed(e),
                }
            },
            None => {
                match BlockTable::from_fs(&dsfs, group_index, reply) {
                    Ok(table) => {
                        dsfs.push_table(table);
                        Dsfs::advance(dsfs, false)
                    },
                    Err(e) => MountStep::Failed(e),
                }
            },
        }
    }
}

impl Dsfs {
    #[verifier::type_invariant]
    spec fn inv(self) -> bool {
        self@.wf()
    }

    /// Bytes per block.
    pub fn block_size(&self) -> (r: u32)
        ensures
            r == self@.block_size,
            self@.wf(),
    {
        proof {
            use_type_invariant(self);
        }
        self.block_size
    }

    /// Blocks on the device.
    pub fn num_blocks(&self) -> (r: u32)
        ensures
            r == self@.num_blocks,
            self@.wf(),
    {
        proof {
            use_type_invariant(self);
        }
        self.num_blocks
    }

    /// Blocks per group.
    pub fn blocks_in_group(&self) -> (r: u32)
        ensures
            r == self@.blocks_in_group,
            self@.wf(),
    {
        proof {
            use_type_invariant(self);
        }
        self.blocks_in_group
    }

    /// Groups on the device.
    pub fn num_groups(&self) -> (r: u32)
        ensures
            r == self@.num_groups(),
            self@.wf(),
    {
        proof {
            use_type_invariant(self);
        }
        num_groups(self.num_blocks, self.blocks_in_group)
    }

    /// Starts loading the filesystem that is on a device, from its superblock.
    /// The tables are then loaded group by group: perform each request that
    /// comes back and hand the reply to [`Mount::step`]. A superblock with a
    /// block size of zero describes no device, and the load fails at once.
    pub fn load(super_block: SuperBlock) -> (first: MountStep)
        ensures
            first@ == spec_mount(super_block, false),
            first@.wf(),
    {
        if super_block.block_size == 0 {
            return MountStep::Failed(BlockTableError::TypeCastError("u32", "NonZeroU32"));
        }
        Dsfs::advance(Dsfs::of_super_block(super_block), false)
    }

    /// Starts creating a fresh filesystem on a device that holds a superblock.
    /// The geometry is the superblock's, and `block_size` does not override it.
    /// A fresh table is then written group by group: perform each request that
    /// comes back and hand the reply to [`Mount::step`]. A superblock with a
    /// block size of zero describes no device, and the creation fails at once.
    ///
    /// Group 0 reserves two entries of its table, so a device that has blocks
    /// must not have blocks of one byte.
    #[allow(unused_variables)]
    pub fn create(super_block: SuperBlock, block_size: u32) -> (first: MountStep)
        requires
            super_block.num_blocks != 0 ==> super_block.block_size != 1,
        ensures
            first@ == spec_mount(super_block, true),
            first@.wf(),
    {
        if super_block.block_size == 0 {
            return MountStep::Failed(BlockTableError::TypeCastError("u32", "NonZeroU32"));
        }
        Dsfs::advance(Dsfs::of_super_block(super_block), true)
    }

    /// The table of group `group_index`, where that table is in.
    pub fn table(&self, group_index: GroupIndex) -> (r: Option<&BlockTable>)
        ensures
            self@.wf(),
            match r {
                Some(table) => group_index < self@.tables.len() && table@
                    == self@.tables[group_index as int],
                None => group_index >= self@.tables.len(),
            },
    {
        proof {
            use_type_invariant(self);
        }
        if group_index >= self.loaded() {
            return None;
        }
        Some(&self.block_table[group_index as usize])
    }

    /// The write that brings the device up to date with the table of group
    /// `group_index`: the whole table, at the group's table block. Returns
    /// `None` where that table is not in. For a table that is in, the write
    /// always exists, since the table block of every group of the device has
    /// an offset.
    pub fn write_table(&self, group_index: GroupIndex) -> (r: Option<DeviceRequest>)
        ensures
            self@.wf(),
            match r {
                Some(request) => group_index < self@.tables.len() && request@
                    == (DeviceRequestView::Write {
                    offset: self@.table_offset(group_index) as u64,
                    bytes: spec_table_as_bytes(self@.tables[group_index as int].tags),
                }),
                None => group_index >= self@.tables.len(),
            },
    {
        proof {
            use_type_invariant(self);
        }
        if group_index >= self.loaded() {
            return None;
        }
        proof {
            lemma_table_offset_in_range(
                self@.block_size,
                self@.num_blocks,
                self@.blocks_in_group,
                group_index,
            );
            assert(self@.tables[group_index as int] == self.block_table@[group_index as int]@);
            assert(self@.tables[group_index as int].group_index == group_index);
        }
        match self.block_table[group_index as usize].write_table(self) {
            Ok(request) => Some(request),
            Err(_) => None,
        }
    }

    /// Sets the tag of one block of group `group_index`, in memory only.
    /// Returns `None`, and changes nothing, where that group's table is not in;
    /// else what [`BlockTable::set_type`] returns for the group's table.
    pub fn set_type(
        &mut self,
        group_index: GroupIndex,
        block_in_group_index: u32,
        value: BlockType,
    ) -> (r: Option<Result<(), BlockTableError>>)
        ensures
            final(self)@.wf(),
            group_index >= old(self)@.tables.len() ==> r is None && final(self)@ == old(self)@,
            group_index < old(self)@.tables.len() ==> match old(self)@.tables[group_index as int].set_type(
                block_in_group_index,
                value,
            ) {
                Ok(table) => r == Some(Ok::<(), BlockTableError>(())) && final(self)@ == (DsfsView {
                    tables: old(self)@.tables.update(group_index as int, table),
                    ..old(self)@
                }),
                Err(e) => r == Some(Err::<(), BlockTableError>(e)) && final(self)@ == old(self)@,
            },
    {
        proof {
            use_type_invariant(&*self);
        }
        if group_index >= self.loaded() {
            return None;
        }
        let ghost before = self@;
        let mut tables: Vec<BlockTable> = Vec::new();
        std::mem::swap(&mut tables, &mut self.block_table);
        let r = tables[group_index as usize].set_type(block_in_group_index, value);
        proof {
            let now = Seq::new(tables@.len(), |g: int| tables@[g]@);
            match before.tables[group_index as int].set_type(block_in_group_index, value) {
                Ok(table) => {
                    assert(now =~= before.tables.update(group_index as int, table));
                },
                Err(_) => {
                    assert(now =~= before.tables);
                },
            }
            assert forall|g: int| 0 <= g < now.len() implies (#[trigger] now[g]).group_index == g
                && now[g].tags.len() == before.blocks_in_group by {
                if g != group_index {
                    assert(now[g] == before.tables[g]);
                }
            }
        }
        self.block_table = tables;
        Some(r)
    }

    /// The geometry that a superblock gives, with no table in yet.
    fn of_super_block(super_block: SuperBlock) -> (dsfs: Dsfs)
        requires
            super_block.block_size != 0,
        ensures
            dsfs@ == spec_geometry(super_block),
    {
        let dsfs = Dsfs {
            block_size: super_block.block_size,
            num_blocks: super_block.num_blocks,
            // Always equal to block_size because it is limited by the number of entries in a
            // block table
            blocks_in_group: super_block.block_size,
            block_table: Vec::new(),
        };
        assert(dsfs@.tables =~= Seq::<BlockTableView>::empty());
        dsfs
    }

    /// Goes on with a mount: done when every table is in, else on to the
    /// request for the next group.
    fn advance(dsfs: Dsfs, creating: bool) -> (next: MountStep)
        requires
            creating && dsfs@.tables.len() == 0 && dsfs@.num_groups() > 0
                ==> dsfs@.blocks_in_group >= 2,
        ensures
            next@ == spec_advance(dsfs@, creating),
            next@.wf(),
    {
        proof {
            use_type_invariant(&dsfs);
        }
        let group_index: GroupIndex = dsfs.loaded();
        if group_index == dsfs.num_groups() {
            return MountStep::Mounted(dsfs);
        }
        proof {
            lemma_table_offset_in_range(
                dsfs@.block_size,
                dsfs@.num_blocks,
                dsfs@.blocks_in_group,
                group_index,
            );
        }
        if creating {
            match BlockTable::create_and_init(&dsfs, group_index) {
                Ok((table, request)) => MountStep::Pending(
                    Mount { dsfs, pending: Some(table) },
                    request,
                ),
                Err(e) => MountStep::Failed(e),
            }
        } else {
            match BlockTable::read_request(&dsfs, group_index) {
                Ok(request) => MountStep::Pending(Mount { dsfs, pending: None }, request),
                Err(e) => MountStep::Failed(e),
            }
        }
    }

    /// The number of tables that are in.
    fn loaded(&self) -> (r: GroupIndex)
        ensures
            r == self@.tables.len(),
    {
        proof {
            use_type_invariant(self);
            crate::layout::lemma_num_groups_is_ceiling(self.num_blocks, self.blocks_in_group);
        }
        self.block_table.len() as GroupIndex
    }

    /// Takes in the table of the next group.
    fn push_table(&mut self, table: BlockTable)
        requires
            old(self)@.tables.len() < old(self)@.num_groups(),
            table@.group_index == old(self)@.tables.len(),
            table@.tags.len() == old(self)@.blocks_in_group,
        ensures
            final(self)@ == (DsfsView { tables: old(self)@.tables.push(table@), ..old(self)@ }),
    {
        proof {
            use_type_invariant(&*self);
        }
        let ghost before = self@;
        let mut tables: Vec<BlockTable> = Vec::new();
        std::mem::swap(&mut tables, &mut self.block_table);
        tables.push(table);
        proof {
            lemma_push_table_wf(before, table@);
            assert(Seq::new(tables@.len(), |g: int| tables@[g]@) =~= before.tables.push(table@));
        }
        self.block_table = tables;
        assert(self@.tables =~= before.tables.push(table@));
    }
}

} // verus!
