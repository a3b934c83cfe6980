//! What is read from the rows of the database.

use vstd::prelude::*;
use crate::bep_state;
use crate::bep_state::BlockInfoExtView;
use crate::device_id;
use crate::rows;
use crate::rows::{
    BlockRowView, DeviceRowView, FileRowView, FolderRowView, FuseRowView, VersionRowView,
};
use crate::statements;
use crate::statements::StatementView;
use crate::syncthing::{
    BlockInfoView, CounterView, DeviceView, FileInfoView, FolderView, VectorView,
};
use crate::types::{GrizolFileInfoView, GrizolFolderView};

verus! {

/// The positions, of `n`, in order.
pub open spec fn are_positions(at: Seq<int>, n: nat) -> bool {
    &&& forall|k: int| 0 <= k < at.len() ==> 0 <= #[trigger] at[k] < n
    &&& forall|k: int, l: int| 0 <= k < l < at.len() ==> #[trigger] at[k] < #[trigger] at[l]
}

/// The number that the first `count` bytes make, most significant byte first. A byte that is
/// missing is zero.
pub open spec fn number_in(s: Seq<u8>, count: nat) -> int
    decreases count,
{
    if count == 0 {
        0
    } else {
        256 * number_in(s, (count - 1) as nat) + if count <= s.len() {
            s[count - 1] as int
        } else {
            0
        }
    }
}

/// A number is kept as its eight bytes, most significant byte first. Where there are fewer,
/// the others are zero, and more make no number.
pub proof fn law_number_of_bytes(s: Seq<u8>)
    ensures
        statements::number_of_bytes(s) is Some <==> s.len() <= 8,
        s.len() <= 8 ==> statements::number_of_bytes(s)->0 == number_in(s, 8),
{
    reveal_with_fuel(number_in, 9);
}

// ---------------------------------------------------------------------------
// Files

/// The columns of the row fit into the fields of a file.
pub open spec fn fits(row: FileRowView) -> bool {
    &&& row.modified_by.len() <= 8
    &&& -0x8000_0000 <= row.file_type <= 0x7fff_ffff
    &&& 0 <= row.permissions <= 0xffff_ffff
    &&& -0x8000_0000 <= row.modified_ns <= 0x7fff_ffff
    &&& -0x8000_0000 <= row.block_size <= 0x7fff_ffff
}

/// The file is the one of the row.
pub open spec fn is_of_row(f: FileInfoView, row: FileRowView) -> bool {
    &&& f.name == row.name
    &&& f.file_type == row.file_type
    &&& f.size == row.size
    &&& f.permissions == row.permissions
    &&& f.modified_s == row.modified_s
    &&& f.modified_ns == row.modified_ns
    &&& f.modified_by == number_in(row.modified_by, 8)
    &&& f.deleted == (row.deleted == 1)
    &&& f.invalid == (row.invalid == 1)
    &&& f.no_permissions == (row.no_permissions == 1)
    &&& f.sequence == row.sequence
    &&& f.block_size == row.block_size
    &&& f.symlink_target == row.symlink_target
}

/// A file is read from its row column by column, where the columns fit, and has the version
/// and the blocks that it is given.
pub proof fn law_file_of_row(
    row: FileRowView,
    version: Option<VectorView>,
    blocks: Seq<BlockInfoView>,
)
    ensures
        rows::file_of(row, version, blocks) is Some <==> fits(row),
        fits(row) ==> {
            let f = rows::file_of(row, version, blocks)->0;
            is_of_row(f, row) && f.version == version && f.blocks == blocks
        },
{
    law_number_of_bytes(row.modified_by);
}

/// The rows are of one file: of one folder and one device, and with one name.
pub open spec fn are_of_one_file(a: FuseRowView, b: FuseRowView) -> bool {
    &&& a.file.folder == b.file.folder
    &&& a.file.device == b.file.device
    &&& a.file.name == b.file.name
}

/// No row before `i` is of the same file.
pub open spec fn is_first_of_file(rows: Seq<FuseRowView>, i: int) -> bool {
    forall|j: int| 0 <= j < i ==> !are_of_one_file(#[trigger] rows[j], rows[i])
}

/// The file is shown as the row has it.
pub open spec fn is_shown(f: GrizolFileInfoView, row: FuseRowView) -> bool {
    &&& f.folder == row.file.folder
    &&& f.id == row.row_id
    &&& f.file_locations.len() == 0
    &&& is_of_row(f.file_info, row.file)
    &&& f.file_info.version is None
    &&& f.file_info.blocks.len() == 0
}

/// The files are those of the rows at the positions, which are the first rows of the files.
pub open spec fn are_shown_at(
    files: Seq<GrizolFileInfoView>,
    rows: Seq<FuseRowView>,
    at: Seq<int>,
) -> bool {
    &&& at.len() == files.len()
    &&& are_positions(at, rows.len())
    &&& forall|k: int|
        0 <= k < at.len() ==> is_shown(#[trigger] files[k], rows[at[k]]) && is_first_of_file(
            rows,
            at[k],
        )
    &&& forall|i: int|
        0 <= i < rows.len() && #[trigger] is_first_of_file(rows, i) ==> at.contains(i)
}

proof fn lemma_shown(rows: Seq<FuseRowView>) -> (at: Seq<int>)
    ensures
        rows::fuse_files_of(rows) is Ok <==> forall|i: int|
            0 <= i < rows.len() ==> fits((#[trigger] rows[i]).file),
        rows::fuse_files_of(rows) is Ok ==> are_shown_at(
            rows::fuse_files_of(rows)->Ok_0,
            rows,
            at,
        ),
    decreases rows.len(),
{
    if rows.len() == 0 {
        Seq::empty()
    } else {
        let front = rows.drop_last();
        let n: int = rows.len() - 1;
        let before = lemma_shown(front);
        law_file_of_row(rows[n].file, None, Seq::empty());
        assert(forall|i: int| 0 <= i < n ==> front[i] == rows[i]);
        assert(rows[n] == rows.last());
        if rows::fuse_files_of(front) is Ok && fits(rows[n].file) {
            let old_files = rows::fuse_files_of(front)->Ok_0;
            let files = rows::fuse_files_of(rows)->Ok_0;
            assert forall|i: int| 0 <= i < n implies #[trigger] is_first_of_file(rows, i)
                == is_first_of_file(front, i) by {
                if is_first_of_file(front, i) {
                    assert forall|j: int| 0 <= j < i implies !are_of_one_file(
                        #[trigger] rows[j],
                        rows[i],
                    ) by {
                        assert(front[j] == rows[j]);
                    }
                }
            }
            if is_first_of_file(rows, n) {
                assert(!rows::has_file(front, rows[n]));
                let at = before.push(n);
                assert(files == old_files.push(rows::fuse_file_of(rows[n])->0));
                assert forall|i: int|
                    0 <= i < rows.len() && #[trigger] is_first_of_file(
                        rows,
                        i,
                    ) implies at.contains(i) by {
                    if i < n {
                        assert(is_first_of_file(front, i));
                        let k = choose|k: int| 0 <= k < before.len() && before[k] == i;
                        assert(at[k] == i);
                    } else {
                        assert(at[n - n + before.len()] == i);
                    }
                }
                assert forall|k: int| 0 <= k < at.len() implies is_shown(
                    #[trigger] files[k],
                    rows[at[k]],
                ) && is_first_of_file(rows, at[k]) by {
                    if k < before.len() {
                        assert(files[k] == old_files[k]);
                        assert(0 <= before[k] < front.len());
                        assert(front[before[k]] == rows[at[k]]);
                        assert(is_first_of_file(front, before[k]));
                        assert(is_first_of_file(rows, at[k]));
                    }
                }
                at
            } else {
                let j = choose|j: int| 0 <= j < n && are_of_one_file(#[trigger] rows[j], rows[n]);
                assert(rows::same_file(front[j], rows[n]));
                assert(rows::has_file(front, rows[n]));
                assert forall|k: int| 0 <= k < before.len() implies is_shown(
                    #[trigger] files[k],
                    rows[before[k]],
                ) && is_first_of_file(rows, before[k]) by {
                    assert(0 <= before[k] < front.len());
                    assert(is_shown(old_files[k], front[before[k]]));
                    assert(is_first_of_file(front, before[k]));
                    assert(is_first_of_file(rows, before[k]));
                }
                assert forall|i: int|
                    0 <= i < rows.len() && #[trigger] is_first_of_file(
                        rows,
                        i,
                    ) implies before.contains(i) by {
                    assert(i < n);
                    assert(is_first_of_file(front, i));
                }
                before
            }
        } else {
            assert(!(forall|i: int|
                0 <= i < rows.len() ==> fits((#[trigger] rows[i]).file)));
            before
        }
    }
}

/// Every file of every folder is shown, once, as its first row has it: the rows from which the
/// files come are the first ones of their folder, device and name, in order, and no such row
/// is left out. That fails only where a row does not fit.
pub proof fn law_every_file_shown_once(rows: Seq<FuseRowView>)
    ensures
        rows::fuse_files_of(rows) is Ok <==> forall|i: int|
            0 <= i < rows.len() ==> fits((#[trigger] rows[i]).file),
        rows::fuse_files_of(rows) is Ok ==> exists|at: Seq<int>|
            are_shown_at(rows::fuse_files_of(rows)->Ok_0, rows, at),
{
    let at = lemma_shown(rows);
}

proof fn lemma_first_of_file(rows: Seq<FuseRowView>, i: int) -> (first: int)
    requires
        0 <= i < rows.len(),
    ensures
        0 <= first <= i,
        are_of_one_file(rows[first], rows[i]),
        is_first_of_file(rows, first),
    decreases i,
{
    if is_first_of_file(rows, i) {
        i
    } else {
        let j = choose|j: int| 0 <= j < i && are_of_one_file(#[trigger] rows[j], rows[i]);
        lemma_first_of_file(rows, j)
    }
}

/// For each row there is a file with the folder and the name of the row.
pub proof fn law_file_of_every_row(rows: Seq<FuseRowView>, i: int)
    requires
        rows::fuse_files_of(rows) is Ok,
        0 <= i < rows.len(),
    ensures
        exists|k: int|
            0 <= k < (rows::fuse_files_of(rows)->Ok_0).len() && (
            #[trigger] (rows::fuse_files_of(rows)->Ok_0)[k]).folder == rows[i].file.folder
                && (rows::fuse_files_of(rows)->Ok_0)[k].file_info.name == rows[i].file.name,
{
    let files = rows::fuse_files_of(rows)->Ok_0;
    let at = lemma_shown(rows);
    let first = lemma_first_of_file(rows, i);
    assert(at.contains(first));
    let k = choose|k: int| 0 <= k < at.len() && at[k] == first;
    assert(is_shown(files[k], rows[at[k]]));
}

/// The blocks are those of the rows, one for each, where the columns fit.
pub proof fn law_blocks_of_rows(rows: Seq<BlockRowView>)
    ensures
        rows::blocks_of(rows) is Some <==> forall|i: int|
            0 <= i < rows.len() ==> block_fits(#[trigger] rows[i]),
        rows::blocks_of(rows) is Some ==> {
            let bs = rows::blocks_of(rows)->0;
            &&& bs.len() == rows.len()
            &&& forall|i: int|
                0 <= i < rows.len() ==> {
                    &&& (#[trigger] bs[i]).offset == rows[i].offset
                    &&& bs[i].size == rows[i].bi_size
                    &&& bs[i].hash == rows[i].hash
                    &&& bs[i].weak_hash == match rows[i].weak_hash {
                        Some(n) => n as int,
                        None => 0,
                    }
                }
        },
    decreases rows.len(),
{
    if rows.len() > 0 {
        let front = rows.drop_last();
        law_blocks_of_rows(front);
        assert(forall|i: int| 0 <= i < front.len() ==> front[i] == rows[i]);
        assert(rows[rows.len() - 1] == rows.last());
        if rows::blocks_of(front) is Some && block_fits(rows.last()) {
            let bs = rows::blocks_of(rows)->0;
            let old_bs = rows::blocks_of(front)->0;
            assert(forall|i: int| 0 <= i < front.len() ==> bs[i] == old_bs[i]);
        }
    }
}

/// The columns of the row fit into the fields of a block.
pub open spec fn block_fits(row: BlockRowView) -> bool {
    &&& -0x8000_0000 <= row.bi_size <= 0x7fff_ffff
    &&& row.weak_hash is Some ==> 0 <= row.weak_hash->0 <= 0xffff_ffff
}

/// The counters are those of the rows, one for each, where the columns fit.
pub proof fn law_counters_of_rows(rows: Seq<VersionRowView>)
    ensures
        rows::counters_of(rows) is Some <==> forall|i: int|
            0 <= i < rows.len() ==> (#[trigger] rows[i]).id.len() <= 8 && rows[i].value >= 0,
        rows::counters_of(rows) is Some ==> {
            let cs = rows::counters_of(rows)->0;
            &&& cs.len() == rows.len()
            &&& forall|i: int|
                0 <= i < rows.len() ==> (#[trigger] cs[i]).id == number_in(rows[i].id, 8)
                    && cs[i].value == rows[i].value
        },
    decreases rows.len(),
{
    if rows.len() > 0 {
        let front = rows.drop_last();
        law_counters_of_rows(front);
        assert(forall|i: int| 0 <= i < front.len() ==> front[i] == rows[i]);
        assert(rows[rows.len() - 1] == rows.last());
        law_number_of_bytes(rows.last().id);
        if rows::counters_of(front) is Some && rows::counter_of(rows.last()) is Some {
            let cs = rows::counters_of(rows)->0;
            let old_cs = rows::counters_of(front)->0;
            assert(forall|i: int| 0 <= i < front.len() ==> cs[i] == old_cs[i]);
        }
    }
}

/// The blocks that are not stored are those of the rows, one for each, where the sizes fit.
pub proof fn law_missing_blocks_of_rows(rows: Seq<BlockRowView>, device_id: Seq<u8>)
    ensures
        bep_state::unstored_blocks_of(rows, device_id) is Some <==> forall|i: int|
            0 <= i < rows.len() ==> -0x8000_0000 <= (#[trigger] rows[i]).bi_size <= 0x7fff_ffff,
        bep_state::unstored_blocks_of(rows, device_id) is Some ==> {
            let bs = bep_state::unstored_blocks_of(rows, device_id)->0;
            &&& bs.len() == rows.len()
            &&& forall|i: int|
                0 <= i < rows.len() ==> {
                    &&& (#[trigger] bs[i]).device_id == device_id
                    &&& bs[i].folder == rows[i].folder
                    &&& bs[i].name == rows[i].name
                    &&& bs[i].hash == rows[i].hash
                    &&& bs[i].size == rows[i].bi_size
                    &&& bs[i].offset == rows[i].offset
                }
        },
    decreases rows.len(),
{
    if rows.len() > 0 {
        let front = rows.drop_last();
        law_missing_blocks_of_rows(front, device_id);
        assert(forall|i: int| 0 <= i < front.len() ==> front[i] == rows[i]);
        assert(rows[rows.len() - 1] == rows.last());
        if bep_state::unstored_blocks_of(rows, device_id) is Some {
            let bs = bep_state::unstored_blocks_of(rows, device_id)->0;
            let old_bs = bep_state::unstored_blocks_of(front, device_id)->0;
            assert(forall|i: int| 0 <= i < front.len() ==> bs[i] == old_bs[i]);
        }
    }
}

// ---------------------------------------------------------------------------
// Folders

/// The folder is the one of the row.
pub open spec fn is_folder_of(f: FolderView, row: FolderRowView) -> bool {
    &&& f.id == row.id
    &&& f.label == row.label
    &&& f.read_only == (row.read_only == 1)
    &&& f.ignore_permissions == (row.ignore_permissions == 1)
    &&& f.ignore_delete == (row.ignore_delete == 1)
    &&& f.disable_temp_indexes == (row.disable_temp_indexes == 1)
    &&& f.paused == (row.paused == 1)
}

/// The device is the one of the row.
pub open spec fn is_device_of(d: DeviceView, row: DeviceRowView) -> bool {
    &&& device_id::id_of_text(row.id) == Ok::<Seq<u8>, device_id::DeviceIdError>(d.id)
    &&& d.name == row.name
    &&& d.addresses == rows::comma_parts(row.addresses)
    &&& d.compression == 1
    &&& d.cert_name == row.cert_name
    &&& d.max_sequence == row.max_sequence
    &&& d.introducer == (row.introducer == 1)
    &&& d.index_id == number_in(row.index_id, 8)
    &&& d.skip_introduction_removals == (row.skip_introduction_removals == 1)
    &&& d.encryption_password_token == row.encryption_password_token
}

/// The devices are those of the rows at the positions, which are all the rows of the folder.
pub open spec fn are_devices_at(
    ds: Seq<DeviceView>,
    rows: Seq<DeviceRowView>,
    folder: Seq<char>,
    at: Seq<int>,
) -> bool {
    &&& at.len() == ds.len()
    &&& are_positions(at, rows.len())
    &&& forall|k: int|
        0 <= k < at.len() ==> is_device_of(#[trigger] ds[k], rows[at[k]]) && rows[at[k]].folder
            == folder
    &&& forall|i: int|
        0 <= i < rows.len() && (#[trigger] rows[i]).folder == folder ==> at.contains(i)
}

proof fn lemma_device_of(row: DeviceRowView)
    ensures
        rows::device_of(row) is Some ==> is_device_of(rows::device_of(row)->0, row),
{
    law_number_of_bytes(row.index_id);
}

proof fn lemma_devices_in(rows: Seq<DeviceRowView>, folder: Seq<char>) -> (at: Seq<int>)
    requires
        rows::devices_ok(rows),
    ensures
        are_devices_at(rows::devices_in(rows, folder), rows, folder, at),
    decreases rows.len(),
{
    if rows.len() == 0 {
        Seq::empty()
    } else {
        let front = rows.drop_last();
        let n: int = rows.len() - 1;
        assert(forall|i: int| 0 <= i < n ==> front[i] == rows[i]);
        assert(rows::devices_ok(front)) by {
            assert forall|i: int| 0 <= i < front.len() implies rows::device_of(
                #[trigger] front[i],
            ) is Some by {
                assert(rows::device_of(rows[i]) is Some);
            }
        }
        let before = lemma_devices_in(front, folder);
        let old_ds = rows::devices_in(front, folder);
        let ds = rows::devices_in(rows, folder);
        assert(rows[n] == rows.last());
        assert(rows::device_of(rows[n]) is Some);
        lemma_device_of(rows[n]);
        if rows[n].folder == folder {
            let at = before.push(n);
            assert forall|k: int| 0 <= k < at.len() implies is_device_of(
                #[trigger] ds[k],
                rows[at[k]],
            ) && rows[at[k]].folder == folder by {
                if k < before.len() {
                    assert(ds[k] == old_ds[k]);
                    assert(0 <= before[k] < front.len());
                }
            }
            assert forall|i: int|
                0 <= i < rows.len() && (#[trigger] rows[i]).folder == folder implies at.contains(
                i,
            ) by {
                if i < n {
                    assert(front[i].folder == folder);
                    let k = choose|k: int| 0 <= k < before.len() && before[k] == i;
                    assert(at[k] == i);
                } else {
                    assert(at[before.len() as int] == i);
                }
            }
            at
        } else {
            assert forall|k: int| 0 <= k < before.len() implies is_device_of(
                #[trigger] ds[k],
                rows[before[k]],
            ) && rows[before[k]].folder == folder by {
                assert(0 <= before[k] < front.len());
                assert(is_device_of(old_ds[k], front[before[k]]));
            }
            assert forall|i: int|
                0 <= i < rows.len() && (#[trigger] rows[i]).folder
                    == folder implies before.contains(i) by {
                assert(front[i].folder == folder);
            }
            before
        }
    }
}

/// The folder is the one of the row, and its devices are those of all the rows of the folder.
pub open spec fn has_its_devices(
    f: FolderView,
    row: FolderRowView,
    devices: Seq<DeviceRowView>,
) -> bool {
    is_folder_of(f, row) && exists|at: Seq<int>| are_devices_at(f.devices, devices, row.id, at)
}

/// Every folder is there, in order, and its devices are those whose rows name it, in order:
/// no other, and none is left out.
pub proof fn law_devices_of_their_folders(devices: Seq<DeviceRowView>, folders: Seq<FolderRowView>)
    requires
        rows::devices_ok(devices),
    ensures
        ({
            let fs = rows::cluster_of(devices, folders).folders;
            &&& fs.len() == folders.len()
            &&& forall|i: int|
                0 <= i < folders.len() ==> has_its_devices(
                    #[trigger] fs[i],
                    folders[i],
                    devices,
                )
        }),
{
    let fs = rows::cluster_of(devices, folders).folders;
    assert forall|i: int| 0 <= i < folders.len() implies has_its_devices(
        #[trigger] fs[i],
        folders[i],
        devices,
    ) by {
        let at = lemma_devices_in(devices, folders[i].id);
        assert(fs[i].devices == rows::devices_in(devices, folders[i].id));
    }
}

/// A device is listed in a folder exactly if there is a row with that folder and that device.
pub proof fn law_device_listed(
    devices: Seq<DeviceRowView>,
    folders: Seq<FolderRowView>,
    i: int,
    id: Seq<u8>,
)
    requires
        rows::devices_ok(devices),
        0 <= i < folders.len(),
    ensures
        ({
            let ds = rows::cluster_of(devices, folders).folders[i].devices;
            (exists|k: int| 0 <= k < ds.len() && (#[trigger] ds[k]).id == id) <==> (exists|j: int|
                0 <= j < devices.len() && (#[trigger] devices[j]).folder == folders[i].id
                    && device_id::id_of_text(devices[j].id) == Ok::<
                    Seq<u8>,
                    device_id::DeviceIdError,
                >(id))
        }),
{
    let ds = rows::cluster_of(devices, folders).folders[i].devices;
    let at = lemma_devices_in(devices, folders[i].id);
    assert(ds == rows::devices_in(devices, folders[i].id));
    if exists|k: int| 0 <= k < ds.len() && (#[trigger] ds[k]).id == id {
        let k = choose|k: int| 0 <= k < ds.len() && (#[trigger] ds[k]).id == id;
        assert(is_device_of(ds[k], devices[at[k]]));
    }
    if exists|j: int|
        0 <= j < devices.len() && (#[trigger] devices[j]).folder == folders[i].id
            && device_id::id_of_text(devices[j].id) == Ok::<Seq<u8>, device_id::DeviceIdError>(
            id,
        ) {
        let j = choose|j: int|
            0 <= j < devices.len() && (#[trigger] devices[j]).folder == folders[i].id
                && device_id::id_of_text(devices[j].id) == Ok::<Seq<u8>, device_id::DeviceIdError>(
                id,
            );
        assert(at.contains(j));
        let k = choose|k: int| 0 <= k < at.len() && at[k] == j;
        assert(is_device_of(ds[k], devices[at[k]]));
    }
}

/// The top folders are those of the rows that have a number, in order.
pub proof fn law_top_folders(rows: Seq<FolderRowView>, f: GrizolFolderView)
    ensures
        rows::top_folders_of(rows).contains(f) <==> exists|i: int|
            0 <= i < rows.len() && (#[trigger] rows[i]).row_id == Some(f.id) && is_folder_of(
                f.folder,
                rows[i],
            ) && f.folder.devices == Seq::<DeviceView>::empty(),
        (forall|i: int| 0 <= i < rows.len() ==> (#[trigger] rows[i]).row_id is Some) ==> {
            let fs = rows::top_folders_of(rows);
            &&& fs.len() == rows.len()
            &&& forall|i: int|
                0 <= i < rows.len() ==> is_folder_of((#[trigger] fs[i]).folder, rows[i])
                    && fs[i].id == rows[i].row_id->0 && fs[i].folder.devices.len() == 0
        },
    decreases rows.len(),
{
    let fs = rows::top_folders_of(rows);
    if rows.len() > 0 {
        let front = rows.drop_last();
        let n: int = rows.len() - 1;
        law_top_folders(front, f);
        assert(forall|i: int| 0 <= i < n ==> front[i] == rows[i]);
        assert(rows[n] == rows.last());
        let old_fs = rows::top_folders_of(front);
        if fs.contains(f) {
            let k = choose|k: int| 0 <= k < fs.len() && fs[k] == f;
            if k < old_fs.len() {
                assert(old_fs[k] == f);
                assert(old_fs.contains(f));
                let i = choose|i: int|
                    0 <= i < front.len() && (#[trigger] front[i]).row_id == Some(f.id)
                        && is_folder_of(f.folder, front[i]) && f.folder.devices == Seq::<
                        DeviceView,
                    >::empty();
                assert(rows[i].row_id == Some(f.id));
            } else {
                assert(rows[n].row_id == Some(f.id));
            }
        }
        if exists|i: int|
            0 <= i < rows.len() && (#[trigger] rows[i]).row_id == Some(f.id) && is_folder_of(
                f.folder,
                rows[i],
            ) && f.folder.devices == Seq::<DeviceView>::empty() {
            let i = choose|i: int|
                0 <= i < rows.len() && (#[trigger] rows[i]).row_id == Some(f.id) && is_folder_of(
                    f.folder,
                    rows[i],
                ) && f.folder.devices == Seq::<DeviceView>::empty();
            if i < n {
                assert(front[i].row_id == Some(f.id));
                assert(old_fs.contains(f));
                let k = choose|k: int| 0 <= k < old_fs.len() && old_fs[k] == f;
                assert(fs[k] == f);
            } else {
                assert(fs[old_fs.len() as int] == f);
            }
        }
        if forall|i: int| 0 <= i < rows.len() ==> (#[trigger] rows[i]).row_id is Some {
            assert forall|i: int| 0 <= i < front.len() implies (#[trigger] front[i]).row_id
                is Some by {
                assert(rows[i].row_id is Some);
            }
            assert(forall|i: int| 0 <= i < n ==> fs[i] == old_fs[i]);
        }
    }
}

// ---------------------------------------------------------------------------
// A cluster config that was written

/// The rows that the statements write for devices.
pub open spec fn device_rows(ss: Seq<StatementView>) -> Seq<DeviceRowView>
    decreases ss.len(),
{
    if ss.len() == 0 {
        Seq::empty()
    } else {
        let before = device_rows(ss.drop_last());
        if ss.last().query is InsertDevice {
            before.push(bep_state::device_row(ss.last().values))
        } else {
            before
        }
    }
}

/// The rows that the statements write for folders.
pub open spec fn folder_rows(ss: Seq<StatementView>) -> Seq<FolderRowView>
    decreases ss.len(),
{
    if ss.len() == 0 {
        Seq::empty()
    } else {
        let before = folder_rows(ss.drop_last());
        if ss.last().query is InsertFolder {
            before.push(bep_state::folder_row(ss.last().values, None))
        } else {
            before
        }
    }
}

proof fn lemma_rows_add(a: Seq<StatementView>, b: Seq<StatementView>)
    ensures
        device_rows(a + b) == device_rows(a) + device_rows(b),
        folder_rows(a + b) == folder_rows(a) + folder_rows(b),
    decreases b.len(),
{
    if b.len() > 0 {
        assert((a + b).drop_last() =~= a + b.drop_last());
        assert((a + b).last() == b.last());
        lemma_rows_add(a, b.drop_last());
    } else {
        assert(a + b =~= a);
        assert(device_rows(a) + device_rows(b) =~= device_rows(a));
        assert(folder_rows(a) + folder_rows(b) =~= folder_rows(a));
    }
}

/// What is kept of a device.
pub open spec fn kept(d: DeviceView) -> DeviceView {
    DeviceView { compression: 1, ..d }
}

pub open spec fn kept_devices(ds: Seq<DeviceView>) -> Seq<DeviceView> {
    Seq::new(ds.len(), |i: int| kept(ds[i]))
}

/// The device is one that can be kept: its id is one, and it has addresses, none of which
/// holds a comma.
pub open spec fn can_be_kept(d: DeviceView) -> bool {
    &&& d.id.len() == 32
    &&& d.addresses.len() > 0
    &&& forall|i: int| 0 <= i < d.addresses.len() ==> !(#[trigger] d.addresses[i]).contains(',')
}

/// The rows of the devices of one folder.
pub open spec fn rows_of_devices(folder: Seq<char>, ds: Seq<DeviceView>) -> Seq<DeviceRowView> {
    Seq::new(
        ds.len(),
        |i: int| bep_state::device_row(bep_state::insert_device_statement(folder, ds[i]).values),
    )
}

proof fn lemma_devices_written(folder: Seq<char>, ds: Seq<DeviceView>)
    ensures
        ({
            let ss = ds.map_values(|d: DeviceView| bep_state::insert_device_statement(folder, d));
            &&& device_rows(ss) == rows_of_devices(folder, ds)
            &&& folder_rows(ss).len() == 0
        }),
    decreases ds.len(),
{
    let ss = ds.map_values(|d: DeviceView| bep_state::insert_device_statement(folder, d));
    if ds.len() > 0 {
        let front = ds.drop_last();
        assert(ss.drop_last() =~= front.map_values(
            |d: DeviceView| bep_state::insert_device_statement(folder, d),
        ));
        assert(ss.last() == bep_state::insert_device_statement(folder, ds.last()));
        lemma_devices_written(folder, front);
        assert(device_rows(ss) =~= rows_of_devices(folder, ds));
    } else {
        assert(device_rows(ss) =~= rows_of_devices(folder, ds));
    }
}

proof fn lemma_folder_written(f: FolderView)
    ensures
        device_rows(bep_state::folder_statements(f)) == rows_of_devices(f.id, f.devices),
        folder_rows(bep_state::folder_statements(f)) == seq![
            bep_state::folder_row(bep_state::insert_folder_statement(f).values, None),
        ],
{
    let first = seq![bep_state::insert_folder_statement(f)];
    let rest = f.devices.map_values(|d: DeviceView| bep_state::insert_device_statement(f.id, d));
    lemma_rows_add(first, rest);
    lemma_devices_written(f.id, f.devices);
    reveal_with_fuel(device_rows, 2);
    reveal_with_fuel(folder_rows, 2);
    assert(first.drop_last() =~= Seq::empty());
    assert(device_rows(first) + rows_of_devices(f.id, f.devices) =~= rows_of_devices(
        f.id,
        f.devices,
    ));
    let row = bep_state::folder_row(bep_state::insert_folder_statement(f).values, None);
    assert(folder_rows(first) =~= seq![row]);
    assert(folder_rows(first) + folder_rows(rest) =~= seq![row]);
}

proof fn lemma_devices_in_add(a: Seq<DeviceRowView>, b: Seq<DeviceRowView>, folder: Seq<char>)
    ensures
        rows::devices_in(a + b, folder) == rows::devices_in(a, folder) + rows::devices_in(b, folder),
    decreases b.len(),
{
    if b.len() > 0 {
        assert((a + b).drop_last() =~= a + b.drop_last());
        assert((a + b).last() == b.last());
        lemma_devices_in_add(a, b.drop_last(), folder);
    } else {
        assert(a + b =~= a);
        assert(rows::devices_in(a, folder) + rows::devices_in(b, folder) =~= rows::devices_in(
            a,
            folder,
        ));
    }
}

proof fn lemma_devices_of_folder(id: Seq<char>, ds: Seq<DeviceView>, folder: Seq<char>)
    requires
        forall|i: int| 0 <= i < ds.len() ==> can_be_kept(#[trigger] ds[i]),
    ensures
        rows::devices_ok(rows_of_devices(id, ds)),
        rows::devices_in(rows_of_devices(id, ds), folder) == if id == folder {
            kept_devices(ds)
        } else {
            Seq::empty()
        },
    decreases ds.len(),
{
    let rs = rows_of_devices(id, ds);
    assert forall|i: int| 0 <= i < rs.len() implies rows::device_of(#[trigger] rs[i]) is Some by {
        assert(can_be_kept(ds[i]));
        bep_state::law_device_read_back(id, ds[i]);
    }
    if ds.len() > 0 {
        let front = ds.drop_last();
        assert(rs.drop_last() =~= rows_of_devices(id, front));
        assert forall|i: int| 0 <= i < front.len() implies can_be_kept(#[trigger] front[i]) by {
            assert(can_be_kept(ds[i]));
        }
        lemma_devices_of_folder(id, front, folder);
        assert(can_be_kept(ds[ds.len() - 1]));
        bep_state::law_device_read_back(id, ds.last());
        if id == folder {
            assert(kept_devices(front).push(kept(ds.last())) =~= kept_devices(ds));
        }
    } else if id == folder {
        assert(rows::devices_in(rs, folder) =~= kept_devices(ds));
    }
}

/// The folders have ids of their own.
pub open spec fn ids_differ(fs: Seq<FolderView>) -> bool {
    forall|i: int, j: int| 0 <= i < j < fs.len() ==> (#[trigger] fs[i]).id != (#[trigger] fs[j]).id
}

/// All devices of the folders can be kept.
pub open spec fn devices_can_be_kept(fs: Seq<FolderView>) -> bool {
    forall|i: int, k: int|
        0 <= i < fs.len() && 0 <= k < fs[i].devices.len() ==> can_be_kept(
            #[trigger] fs[i].devices[k],
        )
}

proof fn lemma_folders_written(fs: Seq<FolderView>, folder: Seq<char>)
    requires
        ids_differ(fs),
        devices_can_be_kept(fs),
    ensures
        ({
            let ss = bep_state::folders_statements(fs);
            &&& rows::devices_ok(device_rows(ss))
            &&& folder_rows(ss).len() == fs.len()
            &&& forall|i: int|
                0 <= i < fs.len() ==> #[trigger] folder_rows(ss)[i] == bep_state::folder_row(
                    bep_state::insert_folder_statement(fs[i]).values,
                    None,
                )
            &&& forall|i: int|
                0 <= i < fs.len() && (#[trigger] fs[i]).id == folder ==> rows::devices_in(
                    device_rows(ss),
                    folder,
                ) == kept_devices(fs[i].devices)
            &&& (forall|i: int| 0 <= i < fs.len() ==> (#[trigger] fs[i]).id != folder)
                ==> rows::devices_in(device_rows(ss), folder).len() == 0
        }),
    decreases fs.len(),
{
    let ss = bep_state::folders_statements(fs);
    if fs.len() > 0 {
        let front = fs.drop_last();
        let n: int = fs.len() - 1;
        let f = fs[n];
        assert(f == fs.last());
        assert(forall|i: int| 0 <= i < n ==> front[i] == fs[i]);
        assert(ids_differ(front));
        assert forall|i: int, k: int|
            0 <= i < front.len() && 0 <= k < front[i].devices.len() implies can_be_kept(
            #[trigger] front[i].devices[k],
        ) by {
            assert(can_be_kept(fs[i].devices[k]));
        }
        lemma_folders_written(front, folder);
        let a = bep_state::folders_statements(front);
        let b = bep_state::folder_statements(f);
        lemma_rows_add(a, b);
        lemma_folder_written(f);
        assert forall|k: int| 0 <= k < f.devices.len() implies can_be_kept(
            #[trigger] f.devices[k],
        ) by {
            assert(can_be_kept(fs[n].devices[k]));
        }
        lemma_devices_of_folder(f.id, f.devices, folder);
        lemma_devices_in_add(device_rows(a), device_rows(b), folder);
        let all = device_rows(ss);
        assert forall|i: int| 0 <= i < all.len() implies rows::device_of(
            #[trigger] all[i],
        ) is Some by {
            if i < device_rows(a).len() {
                assert(rows::device_of(device_rows(a)[i]) is Some);
            } else {
                assert(rows::device_of(device_rows(b)[i - device_rows(a).len()]) is Some);
            }
        }
        assert forall|i: int| 0 <= i < fs.len() && (#[trigger] fs[i]).id == folder implies
            rows::devices_in(all, folder) == kept_devices(fs[i].devices) by {
            if i < n {
                assert(front[i].id == folder);
                assert(fs[n].id != folder);
                assert(rows::devices_in(all, folder) =~= kept_devices(fs[i].devices));
            } else {
                assert forall|j: int| 0 <= j < front.len() implies (#[trigger] front[j]).id
                    != folder by {
                    assert(fs[j].id != fs[n].id);
                }
                assert(rows::devices_in(all, folder) =~= kept_devices(fs[i].devices));
            }
        }
        if forall|i: int| 0 <= i < fs.len() ==> (#[trigger] fs[i]).id != folder {
            assert forall|j: int| 0 <= j < front.len() implies (#[trigger] front[j]).id
                != folder by {
                assert(fs[j].id != folder);
            }
            assert(fs[n].id != folder);
        }
    }
}

/// A cluster config that was written is read back: the same folders, in order, each with the
/// same devices, in order. Of a device all is kept but how it compresses.
pub proof fn law_cluster_config_read_back(fs: Seq<FolderView>)
    requires
        ids_differ(fs),
        devices_can_be_kept(fs),
    ensures
        ({
            let ss = bep_state::folders_statements(fs);
            let back = rows::cluster_of(device_rows(ss), folder_rows(ss)).folders;
            &&& rows::devices_ok(device_rows(ss))
            &&& back.len() == fs.len()
            &&& forall|i: int|
                0 <= i < fs.len() ==> #[trigger] back[i] == (FolderView {
                    devices: kept_devices(fs[i].devices),
                    ..fs[i]
                })
        }),
{
    let ss = bep_state::folders_statements(fs);
    let back = rows::cluster_of(device_rows(ss), folder_rows(ss)).folders;
    lemma_folders_written(fs, Seq::empty());
    assert forall|i: int| 0 <= i < fs.len() implies #[trigger] back[i] == (FolderView {
        devices: kept_devices(fs[i].devices),
        ..fs[i]
    }) by {
        lemma_folders_written(fs, fs[i].id);
        assert(folder_rows(ss)[i] == bep_state::folder_row(
            bep_state::insert_folder_statement(fs[i]).values,
            None,
        ));
        bep_state::law_folder_read_back(fs[i], None);
        assert(folder_rows(ss)[i].id == fs[i].id);
    }
}

/// Every folder is paired with every device, and nothing else is.
pub proof fn law_every_pair(
    folders: Seq<Seq<char>>,
    devices: Seq<Seq<u8>>,
    folder: Seq<char>,
    device: Seq<u8>,
)
    ensures
        bep_state::index_keys(folders, devices).contains((folder, device)) <==> folders.contains(
            folder,
        ) && devices.contains(device),
        bep_state::index_keys(folders, devices).len() == folders.len() * devices.len(),
{
    let keys = bep_state::index_keys(folders, devices);
    let m = devices.len() as int;
    if keys.contains((folder, device)) {
        let k = choose|k: int| 0 <= k < keys.len() && keys[k] == (folder, device);
        assert(m > 0 && 0 <= k / m < folders.len() && 0 <= k % m < m) by (nonlinear_arith)
            requires
                0 <= k < folders.len() * m,
                m >= 0,
        ;
        assert(folders[k / m] == folder);
        assert(devices[k % m] == device);
    }
    if folders.contains(folder) && devices.contains(device) {
        let i = choose|i: int| 0 <= i < folders.len() && folders[i] == folder;
        let j = choose|j: int| 0 <= j < devices.len() && devices[j] == device;
        let k = i * m + j;
        assert(0 <= k < folders.len() * m && k / m == i && k % m == j) by (nonlinear_arith)
            requires
                0 <= i < folders.len(),
                0 <= j < m,
                k == i * m + j,
        ;
        assert(keys[k] == (folder, device));
    }
}

} // verus!
