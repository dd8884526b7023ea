//! What a mount comes to when it is driven against a device: every request
//! performed, every reply handed to the next step, until the mount is over.
//!
//! The caller runs that loop on a real device. Here it is run on the device
//! model of [`crate::device`], to state what a whole mount does.
use vstd::prelude::*;

use crate::device::device_after;
use crate::device::device_covers;
use crate::device::device_reply;
use crate::dsfs::lemma_push_table_wf;
use crate::dsfs::spec_advance;
use crate::dsfs::spec_geometry;
use crate::dsfs::spec_mount;
use crate::dsfs::spec_zero_block_size;
use crate::dsfs::spec_step;
use crate::dsfs::DsfsView;
use crate::dsfs::MountStepView;
use crate::dsfs::MountView;
use crate::fs_structs::block_table::lemma_table_round_trip;
use crate::fs_structs::block_table::spec_from_fs;
use crate::fs_structs::block_table::spec_table_as_bytes;
use crate::fs_structs::block_table::BlockTableError;
use crate::fs_structs::block_table::BlockTableView;
use crate::fs_structs::super_block::SuperBlock;
use crate::layout::lemma_num_groups_is_ceiling;
use crate::layout::lemma_table_blocks_apart;
use crate::layout::lemma_table_offset_in_range;
use crate::GroupIndex;

verus! {

/// Where a mount stands, and what the device holds, after at most `steps`
/// requests were performed on a device that held `image`.
pub open spec fn spec_run(step: MountStepView, image: Seq<u8>, steps: nat) -> (
    MountStepView,
    Seq<u8>,
)
    decreases steps,
{
    match step {
        MountStepView::Pending(mount, request) => if steps == 0 {
            (step, image)
        } else {
            spec_run(
                spec_step(mount, device_reply(image, request)),
                device_after(image, request),
                (steps - 1) as nat,
            )
        },
        _ => (step, image),
    }
}

/// The table of group `group_index` as a device that holds `image` has it:
/// what loading makes of the device's reply to the read of that table.
pub open spec fn spec_table_on(dsfs: DsfsView, image: Seq<u8>, group_index: GroupIndex) -> Result<
    BlockTableView,
    BlockTableError,
> {
    spec_from_fs(
        dsfs.blocks_in_group,
        group_index,
        device_reply(image, dsfs.table_read(group_index)),
    )
}

/// Whether the tables of the groups from `from` up to, not including, `to` can
/// all be loaded from a device that holds `image`.
pub open spec fn tables_load(dsfs: DsfsView, image: Seq<u8>, from: int, to: int) -> bool {
    forall|g: GroupIndex| from <= g < to ==> (#[trigger] spec_table_on(dsfs, image, g)) is Ok
}

/// The tables of `dsfs`, followed by those of the groups up to `to` as a
/// device that holds `image` has them.
pub open spec fn tables_loaded(dsfs: DsfsView, image: Seq<u8>, to: nat) -> Seq<BlockTableView> {
    Seq::new(
        to,
        |g: int|
            if g < dsfs.tables.len() {
                dsfs.tables[g]
            } else {
                spec_table_on(dsfs, image, g as GroupIndex).unwrap()
            },
    )
}

/// A load that goes on from `mount` ends within as many requests as tables are
/// still to come, leaves the device as it was, and mounts exactly when every
/// one of those tables can be loaded; else it fails with the error of the
/// first that cannot.
pub proof fn lemma_load_from(mount: MountView, image: Seq<u8>)
    requires
        mount.wf(),
        !mount.creating,
    ensures
        ({
            let n = mount.dsfs.num_groups();
            let k = mount.dsfs.tables.len();
            let (end, after) = spec_run(
                MountStepView::Pending(mount, mount.request()),
                image,
                (n - k) as nat,
            );
            &&& after == image
            &&& end !is Pending
            &&& tables_load(mount.dsfs, image, k as int, n as int) ==> end
                == MountStepView::Mounted(
                DsfsView { tables: tables_loaded(mount.dsfs, image, n), ..mount.dsfs },
            )
            &&& forall|g: GroupIndex|
                k <= g < n && tables_load(mount.dsfs, image, k as int, g as int) && (
                #[trigger] spec_table_on(mount.dsfs, image, g)) is Err ==> end
                    == MountStepView::Failed(spec_table_on(mount.dsfs, image, g)->Err_0)
        }),
    decreases mount.dsfs.num_groups() - mount.dsfs.tables.len(),
{
    let n = mount.dsfs.num_groups();
    let k = mount.dsfs.tables.len();
    let dsfs = mount.dsfs;
    lemma_num_groups_is_ceiling(dsfs.num_blocks, dsfs.blocks_in_group);
    let reply = device_reply(image, mount.request());
    let next = spec_step(mount, reply);
    let end = spec_run(MountStepView::Pending(mount, mount.request()), image, (n - k) as nat).0;
    assert(spec_run(MountStepView::Pending(mount, mount.request()), image, (n - k) as nat)
        == spec_run(next, image, (n - k - 1) as nat));
    match spec_table_on(dsfs, image, k as GroupIndex) {
        Err(e) => {
            assert(next == MountStepView::Failed(e));
            assert(!tables_load(dsfs, image, k as int, n as int));
            assert forall|g: GroupIndex|
                k <= g < n && tables_load(dsfs, image, k as int, g as int) && (
                #[trigger] spec_table_on(dsfs, image, g)) is Err implies end
                == MountStepView::Failed(spec_table_on(dsfs, image, g)->Err_0) by {
                if g > k {
                    assert(spec_table_on(dsfs, image, k as GroupIndex) is Ok);
                }
            }
        },
        Ok(table) => {
            let grown = DsfsView { tables: dsfs.tables.push(table), ..dsfs };
            assert(next == spec_advance(grown, false));
            assert forall|g: GroupIndex| #[trigger]
                spec_table_on(grown, image, g) == spec_table_on(dsfs, image, g) by {}
            if grown.mounted() {
                assert(tables_loaded(dsfs, image, n) =~= grown.tables);
                assert forall|g: GroupIndex|
                    k <= g < n && tables_load(dsfs, image, k as int, g as int) && (
                    #[trigger] spec_table_on(dsfs, image, g)) is Err implies false by {
                    assert(g == k);
                }
            } else {
                let onward = MountView { dsfs: grown, creating: false };
                lemma_push_table_wf(dsfs, table);
                lemma_load_from(onward, image);
                if tables_load(dsfs, image, k as int, n as int) {
                    assert(tables_load(grown, image, k as int + 1, n as int)) by {
                        assert forall|g: GroupIndex| k + 1 <= g < n implies (
                        #[trigger] spec_table_on(grown, image, g)) is Ok by {
                            assert(spec_table_on(dsfs, image, g) is Ok);
                        }
                    }
                    assert(tables_loaded(grown, image, n) =~= tables_loaded(dsfs, image, n));
                }
                assert forall|g: GroupIndex|
                    k <= g < n && tables_load(dsfs, image, k as int, g as int) && (
                    #[trigger] spec_table_on(dsfs, image, g)) is Err implies end
                    == MountStepView::Failed(spec_table_on(dsfs, image, g)->Err_0) by {
                    assert(g > k);
                    assert(tables_load(grown, image, k as int + 1, g as int)) by {
                        assert forall|h: GroupIndex| k + 1 <= h < g implies (
                        #[trigger] spec_table_on(grown, image, h)) is Ok by {
                            assert(spec_table_on(dsfs, image, h) is Ok);
                        }
                    }
                    assert(spec_table_on(grown, image, g) is Err);
                }
            }
        },
    }
}

/// A block size of zero fails the mount. Whether it loads or creates, a mount
/// from a superblock whose block size is zero is over before its first
/// request: it has failed with the geometry error, makes no request, and
/// leaves the device as it was.
pub proof fn lemma_zero_block_size_fails(
    super_block: SuperBlock,
    creating: bool,
    image: Seq<u8>,
    steps: nat,
)
    requires
        super_block.block_size == 0,
    ensures
        spec_run(spec_mount(super_block, creating), image, steps) == (
            MountStepView::Failed(spec_zero_block_size()),
            image,
        ),
{
}

/// Loading fails closed. A load that is driven from the superblock to its end
/// asks the device for no more than one table per group and leaves the device
/// as it was. It mounts exactly when the table of every group can be loaded,
/// and the mounted `Dsfs` then holds those tables; else it fails with the error
/// of the first group whose table cannot be loaded.
pub proof fn lemma_load_fails_closed(super_block: SuperBlock, image: Seq<u8>)
    requires
        super_block.block_size != 0,
    ensures
        ({
            let geometry = spec_geometry(super_block);
            let n = geometry.num_groups();
            let (end, after) = spec_run(spec_mount(super_block, false), image, n);
            &&& after == image
            &&& end !is Pending
            &&& tables_load(geometry, image, 0, n as int) ==> end == MountStepView::Mounted(
                DsfsView { tables: tables_loaded(geometry, image, n), ..geometry },
            )
            &&& forall|g: GroupIndex|
                g < n && tables_load(geometry, image, 0, g as int) && (#[trigger] spec_table_on(
                    geometry,
                    image,
                    g,
                )) is Err ==> end == MountStepView::Failed(
                    spec_table_on(geometry, image, g)->Err_0,
                )
        }),
{
    let geometry = spec_geometry(super_block);
    let n = geometry.num_groups();
    if n == 0 {
        assert(tables_loaded(geometry, image, n) =~= geometry.tables);
    } else {
        lemma_load_from(MountView { dsfs: geometry, creating: false }, image);
    }
}

/// One bad table fails the whole load: where the table of any one group
/// cannot be loaded, a load that is driven from the superblock to its end
/// fails, and mounts nothing.
pub proof fn lemma_one_bad_table_fails_the_load(
    super_block: SuperBlock,
    image: Seq<u8>,
    group_index: GroupIndex,
)
    requires
        group_index < spec_geometry(super_block).num_groups(),
        spec_table_on(spec_geometry(super_block), image, group_index) is Err,
    ensures
        spec_run(
            spec_mount(super_block, false),
            image,
            spec_geometry(super_block).num_groups(),
        ).0 is Failed,
{
    let geometry = spec_geometry(super_block);
    if super_block.block_size != 0 {
        lemma_first_bad_table(geometry, image, group_index);
        lemma_load_fails_closed(super_block, image);
    }
}

/// Below any group whose table cannot be loaded lies the first such group.
proof fn lemma_first_bad_table(dsfs: DsfsView, image: Seq<u8>, bad: GroupIndex)
    requires
        spec_table_on(dsfs, image, bad) is Err,
    ensures
        exists|g: GroupIndex|
            g <= bad && tables_load(dsfs, image, 0, g as int) && (#[trigger] spec_table_on(
                dsfs,
                image,
                g,
            )) is Err,
    decreases bad,
{
    if !tables_load(dsfs, image, 0, bad as int) {
        let earlier = choose|g: GroupIndex|
            0 <= g < bad && !((#[trigger] spec_table_on(dsfs, image, g)) is Ok);
        lemma_first_bad_table(dsfs, image, earlier);
    }
}

/// Whether a device that holds `image` covers the table block of group
/// `group_index`.
pub open spec fn table_covered(dsfs: DsfsView, image: Seq<u8>, group_index: GroupIndex) -> bool {
    device_covers(image, dsfs.table_offset(group_index), dsfs.blocks_in_group as nat)
}

/// Whether a device that holds `image` covers the table blocks of the groups
/// from `from` up to, not including, `to`.
pub open spec fn tables_covered(dsfs: DsfsView, image: Seq<u8>, from: int, to: int) -> bool {
    forall|g: GroupIndex| from <= g < to ==> #[trigger] table_covered(dsfs, image, g)
}

/// Whether byte `at` of the device lies in the table block of group
/// `group_index`.
pub open spec fn in_table_block(dsfs: DsfsView, at: int, group_index: GroupIndex) -> bool {
    dsfs.table_offset(group_index) <= at < dsfs.table_offset(group_index) + dsfs.blocks_in_group
}

/// Whether a device that holds `image` has the fresh table of group
/// `group_index` in that group's table block.
pub open spec fn holds_fresh_table(dsfs: DsfsView, image: Seq<u8>, group_index: GroupIndex) -> bool {
    &&& table_covered(dsfs, image, group_index)
    &&& image.subrange(
        dsfs.table_offset(group_index) as int,
        dsfs.table_offset(group_index) + dsfs.blocks_in_group,
    ) == spec_table_as_bytes(dsfs.fresh_table(group_index).tags)
}

/// The tables of `dsfs`, followed by fresh tables for the groups up to `to`.
pub open spec fn tables_created(dsfs: DsfsView, to: nat) -> Seq<BlockTableView> {
    Seq::new(
        to,
        |g: int|
            if g < dsfs.tables.len() {
                dsfs.tables[g]
            } else {
                dsfs.fresh_table(g as GroupIndex)
            },
    )
}

/// A creation that goes on from `mount` ends within as many requests as tables
/// are still to come, and changes the device in the table blocks of those
/// groups only. It mounts exactly when the device covers all of those blocks,
/// each of which then holds its group's fresh table; else it fails at the
/// first block that the device does not cover, with the tables before it
/// written.
pub proof fn lemma_create_from(mount: MountView, image: Seq<u8>)
    requires
        mount.wf(),
        mount.creating,
        mount.dsfs.tables.len() == 0 ==> mount.dsfs.blocks_in_group >= 2,
    ensures
        ({
            let n = mount.dsfs.num_groups();
            let k = mount.dsfs.tables.len();
            let (end, after) = spec_run(
                MountStepView::Pending(mount, mount.request()),
                image,
                (n - k) as nat,
            );
            &&& after.len() == image.len()
            &&& end !is Pending
            &&& forall|at: int|
                0 <= at < image.len() && after[at] != image[at] ==> exists|g: GroupIndex|
                    k <= g < n && #[trigger] in_table_block(mount.dsfs, at, g)
            &&& tables_covered(mount.dsfs, image, k as int, n as int) ==> {
                &&& end == MountStepView::Mounted(
                    DsfsView { tables: tables_created(mount.dsfs, n), ..mount.dsfs },
                )
                &&& forall|g: GroupIndex|
                    k <= g < n ==> #[trigger] holds_fresh_table(mount.dsfs, after, g)
            }
            &&& forall|g: GroupIndex|
                k <= g < n && tables_covered(mount.dsfs, image, k as int, g as int)
                    && !#[trigger] table_covered(mount.dsfs, image, g) ==> {
                    &&& end == MountStepView::Failed(BlockTableError::FileError)
                    &&& forall|h: GroupIndex|
                        k <= h < g ==> #[trigger] holds_fresh_table(mount.dsfs, after, h)
                }
        }),
    decreases mount.dsfs.num_groups() - mount.dsfs.tables.len(),
{
    let n = mount.dsfs.num_groups();
    let k = mount.dsfs.tables.len();
    let dsfs = mount.dsfs;
    let group = k as GroupIndex;
    lemma_num_groups_is_ceiling(dsfs.num_blocks, dsfs.blocks_in_group);
    lemma_table_offset_in_range(dsfs.block_size, dsfs.num_blocks, dsfs.blocks_in_group, group);
    let request = mount.request();
    let bytes = spec_table_as_bytes(dsfs.fresh_table(group).tags);
    let next = spec_step(mount, device_reply(image, request));
    let written = device_after(image, request);
    let (end, after) = spec_run(MountStepView::Pending(mount, request), image, (n - k) as nat);
    assert((end, after) == spec_run(next, written, (n - k - 1) as nat));
    if !table_covered(dsfs, image, group) {
        assert(next == MountStepView::Failed(BlockTableError::FileError));
        assert(after == image);
        assert(!tables_covered(dsfs, image, k as int, n as int));
        assert forall|g: GroupIndex|
            k <= g < n && tables_covered(dsfs, image, k as int, g as int) && !#[trigger] table_covered(
                dsfs,
                image,
                g,
            ) implies g == group by {
            if g > k {
                assert(table_covered(dsfs, image, group));
            }
        }
    } else {
        let grown = DsfsView { tables: dsfs.tables.push(dsfs.fresh_table(group)), ..dsfs };
        assert(next == spec_advance(grown, true));
        assert(written.len() == image.len());
        assert(written.subrange(
            dsfs.table_offset(group) as int,
            dsfs.table_offset(group) + dsfs.blocks_in_group,
        ) =~= bytes);
        assert(holds_fresh_table(dsfs, written, group));
        assert forall|at: int| 0 <= at < image.len() && written[at] != image[at] implies in_table_block(
            dsfs,
            at,
            group,
        ) by {}
        if grown.mounted() {
            assert(tables_created(dsfs, n) =~= grown.tables);
            assert forall|g: GroupIndex| k <= g < n implies #[trigger] holds_fresh_table(
                dsfs,
                after,
                g,
            ) by {
                assert(g == group);
            }
            assert forall|g: GroupIndex|
                k <= g < n && tables_covered(dsfs, image, k as int, g as int)
                    && !#[trigger] table_covered(dsfs, image, g) implies false by {
                assert(g == group);
            }
        } else {
            let onward = MountView { dsfs: grown, creating: true };
            lemma_push_table_wf(dsfs, dsfs.fresh_table(group));
            lemma_create_from(onward, written);
            // The later writes leave the table block of this group alone.
            assert forall|at: int, g: GroupIndex|
                k < g < n && in_table_block(dsfs, at, group) implies !#[trigger] in_table_block(
                grown,
                at,
                g,
            ) by {
                lemma_table_blocks_apart(dsfs.block_size, group, g);
            }
            assert forall|g: GroupIndex| #[trigger]
                table_covered(grown, written, g) == table_covered(dsfs, image, g) by {}
            assert forall|at: int|
                0 <= at < image.len() && after[at] != image[at] implies exists|g: GroupIndex|
                k <= g < n && #[trigger] in_table_block(dsfs, at, g) by {
                if after[at] != written[at] {
                    let g = choose|g: GroupIndex| k + 1 <= g < n && #[trigger] in_table_block(grown, at, g);
                    assert(in_table_block(dsfs, at, g));
                } else {
                    assert(in_table_block(dsfs, at, group));
                }
            }
            assert(holds_fresh_table(dsfs, after, group)) by {
                let start = dsfs.table_offset(group) as int;
                let stop = start + dsfs.blocks_in_group;
                assert forall|at: int| start <= at < stop implies after[at] == written[at] by {
                    if after[at] != written[at] {
                        let g = choose|g: GroupIndex| k + 1 <= g < n && #[trigger] in_table_block(grown, at, g);
                        assert(in_table_block(dsfs, at, group));
                    }
                }
                assert(after.subrange(start, stop) =~= written.subrange(start, stop));
            }
            assert forall|g: GroupIndex| #[trigger]
                holds_fresh_table(grown, after, g) == holds_fresh_table(dsfs, after, g) by {}
            if tables_covered(dsfs, image, k as int, n as int) {
                assert(tables_covered(grown, written, k as int + 1, n as int)) by {
                    assert forall|g: GroupIndex| k + 1 <= g < n implies #[trigger] table_covered(
                        grown,
                        written,
                        g,
                    ) by {
                        assert(table_covered(dsfs, image, g));
                    }
                }
                assert(tables_created(grown, n) =~= tables_created(dsfs, n));
                assert forall|g: GroupIndex| k <= g < n implies #[trigger] holds_fresh_table(
                    dsfs,
                    after,
                    g,
                ) by {
                    if g > k {
                        assert(holds_fresh_table(grown, after, g));
                    }
                }
            }
            assert forall|g: GroupIndex|
                k <= g < n && tables_covered(dsfs, image, k as int, g as int)
                    && !#[trigger] table_covered(dsfs, image, g) implies {
                &&& end == MountStepView::Failed(BlockTableError::FileError)
                &&& forall|h: GroupIndex|
                    k <= h < g ==> #[trigger] holds_fresh_table(dsfs, after, h)
            } by {
                assert(g > k);
                assert(tables_covered(grown, written, k as int + 1, g as int)) by {
                    assert forall|h: GroupIndex| k + 1 <= h < g implies #[trigger] table_covered(
                        grown,
                        written,
                        h,
                    ) by {
                        assert(table_covered(dsfs, image, h));
                    }
                }
                assert(!table_covered(grown, written, g));
                assert forall|h: GroupIndex| k <= h < g implies #[trigger] holds_fresh_table(
                    dsfs,
                    after,
                    h,
                ) by {
                    if h > k {
                        assert(holds_fresh_table(grown, after, h));
                    }
                }
            }
        }
    }
}

/// Creation writes one fresh table per group. A creation that is driven from
/// the superblock to its end makes no more than one write per group and
/// changes the device in table blocks only. It mounts exactly when the device
/// covers the table block of every group; the mounted `Dsfs` then holds the
/// fresh table of every group and so does the device. Else it fails at the
/// first table block that the device does not cover.
pub proof fn lemma_create_outcome(super_block: SuperBlock, image: Seq<u8>)
    requires
        super_block.block_size != 0,
        super_block.num_blocks != 0 ==> super_block.block_size != 1,
    ensures
        ({
            let geometry = spec_geometry(super_block);
            let n = geometry.num_groups();
            let (end, after) = spec_run(spec_mount(super_block, true), image, n);
            &&& after.len() == image.len()
            &&& end !is Pending
            &&& forall|at: int|
                0 <= at < image.len() && after[at] != image[at] ==> exists|g: GroupIndex|
                    g < n && #[trigger] in_table_block(geometry, at, g)
            &&& tables_covered(geometry, image, 0, n as int) ==> {
                &&& end == MountStepView::Mounted(
                    DsfsView { tables: tables_created(geometry, n), ..geometry },
                )
                &&& forall|g: GroupIndex| g < n ==> #[trigger] holds_fresh_table(geometry, after, g)
            }
            &&& forall|g: GroupIndex|
                g < n && tables_covered(geometry, image, 0, g as int) && !#[trigger] table_covered(
                    geometry,
                    image,
                    g,
                ) ==> {
                    &&& end == MountStepView::Failed(BlockTableError::FileError)
                    &&& forall|h: GroupIndex|
                        h < g ==> #[trigger] holds_fresh_table(geometry, after, h)
                }
        }),
{
    let geometry = spec_geometry(super_block);
    let n = geometry.num_groups();
    lemma_num_groups_is_ceiling(super_block.num_blocks, super_block.block_size);
    if n == 0 {
        assert(tables_created(geometry, n) =~= geometry.tables);
    } else {
        lemma_create_from(MountView { dsfs: geometry, creating: true }, image);
    }
}

/// What creation wrote, loading reads back. After a creation that mounted,
/// a load of the same device mounts too, with the very tables that creation
/// made, and leaves the device as creation left it.
pub proof fn lemma_create_then_load(super_block: SuperBlock, image: Seq<u8>)
    requires
        super_block.num_blocks != 0 ==> super_block.block_size != 1,
        spec_run(
            spec_mount(super_block, true),
            image,
            spec_geometry(super_block).num_groups(),
        ).0 is Mounted,
    ensures
        ({
            let geometry = spec_geometry(super_block);
            let n = geometry.num_groups();
            let (created, after) = spec_run(spec_mount(super_block, true), image, n);
            spec_run(spec_mount(super_block, false), after, n) == (created, after)
        }),
{
    let geometry = spec_geometry(super_block);
    let n = geometry.num_groups();
    let (created, after) = spec_run(spec_mount(super_block, true), image, n);
    lemma_create_outcome(super_block, image);
    lemma_load_fails_closed(super_block, after);
    if !tables_covered(geometry, image, 0, n as int) {
        lemma_first_uncovered(geometry, image, n as int);
        let g = choose|g: GroupIndex|
            g < n && tables_covered(geometry, image, 0, g as int) && !#[trigger] table_covered(
                geometry,
                image,
                g,
            );
        assert(created == MountStepView::Failed(BlockTableError::FileError));
    }
    assert forall|g: GroupIndex| g < n implies #[trigger] spec_table_on(geometry, after, g) == Ok::<
        BlockTableView,
        BlockTableError,
    >(geometry.fresh_table(g)) by {
        assert(holds_fresh_table(geometry, after, g));
        lemma_table_offset_in_range(
            geometry.block_size,
            geometry.num_blocks,
            geometry.blocks_in_group,
            g,
        );
        lemma_table_round_trip(geometry.fresh_table(g).tags);
        let start = geometry.table_offset(g) as int;
        assert(device_reply(after, geometry.table_read(g)) == crate::device::DeviceReplyView::Data(
            after.subrange(start, start + geometry.blocks_in_group),
        ));
    }
    assert(tables_loaded(geometry, after, n) =~= tables_created(geometry, n));
}

/// Among table blocks that a device does not all cover, one is the first that
/// it does not cover.
proof fn lemma_first_uncovered(dsfs: DsfsView, image: Seq<u8>, to: int)
    requires
        !tables_covered(dsfs, image, 0, to),
    ensures
        exists|g: GroupIndex|
            g < to && tables_covered(dsfs, image, 0, g as int) && !#[trigger] table_covered(
                dsfs,
                image,
                g,
            ),
    decreases to,
{
    let bad = choose|g: GroupIndex| 0 <= g < to && !#[trigger] table_covered(dsfs, image, g);
    if tables_covered(dsfs, image, 0, bad as int) {
    } else {
        lemma_first_uncovered(dsfs, image, bad as int);
    }
}

} // verus!
