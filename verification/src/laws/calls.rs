//! What calls give back.

use vstd::prelude::*;
use crate::bep_processor;
use crate::bep_processor::{DiffError, FileOrder, IndexDiff};
use crate::bep_state;
use crate::bep_state::{BepState, BlockInfoExt};
use crate::connectivity;
use crate::connectivity::ClientCheck;
use crate::device_id;
use crate::device_id::DeviceId;
use crate::fuse;
use crate::laws::comparing;
use crate::laws::processing;
use crate::laws::reading;
use crate::rows;
use crate::rows::BadRow;
use crate::statements::{Query, Statement, StatementView, ValueView};
use crate::storage;
use crate::storage::{CacheRead, RemoteOp, StorageManager};
use crate::syncthing::{ClusterConfig, FileInfo, FileInfoView, Index, Request, Response};
use crate::types::GrizolFileInfo;

verus! {

// ---------------------------------------------------------------------------
// Peers

/// A peer may connect exactly if the digest of its certificate is the id of one of the devices
/// that are trusted.
pub proof fn law_only_trusted_peers(
    trusted_peers: &Vec<DeviceId>,
    cert: &[u8],
    r: ClientCheck,
)
    requires
        call_ensures(connectivity::verify_client_cert, (trusted_peers, cert), r),
    ensures
        r.client_id.id@ == device_id::sha256_of(cert@),
        r.accepted <==> exists|i: int|
            0 <= i < trusted_peers@.len() && (#[trigger] trusted_peers@[i]).id@
                == device_id::sha256_of(cert@),
{
}

// ---------------------------------------------------------------------------
// Comparing

/// Versions are compared by the highest counters of the files.
pub proof fn law_compare_versions(a: &FileInfo, b: &FileInfo, r: Option<FileOrder>)
    requires
        bep_processor::has_version(a@),
        bep_processor::has_version(b@),
        call_ensures(bep_processor::compare_versions, (a, b), r),
    ensures
        ({
            let x = comparing::counters(a@);
            let y = comparing::counters(b@);
            &&& r == Some(FileOrder::Older) <==> comparing::is_outdone(x, y)
            &&& r == Some(FileOrder::Newer) <==> comparing::is_outdone(y, x)
            &&& r is None ==> !comparing::same_device(x, y)
        }),
{
    comparing::law_versions_compared(a@, b@);
}

/// The files that are new are those of the index that came which are news to the other.
pub proof fn law_diff_indices(
    folder: &str,
    added: &Index,
    existing: &Index,
    r: Result<IndexDiff, DiffError>,
    f: FileInfoView,
)
    requires
        crate::indices::names_distinct(existing@.files),
        call_ensures(bep_processor::diff_indices, (folder, added, existing), r),
    ensures
        r matches Ok(d) ==> (d@.newly_added_files.contains(f) <==> added@.files.contains(f)
            && comparing::is_news(existing@.files, f)),
{
    if r is Ok {
        comparing::law_new_file(folder@, added@, existing@, f);
    }
}

// ---------------------------------------------------------------------------
// Rows

/// The files that are shown are those of the first rows of all files.
pub proof fn law_files_fuse(
    files: &Vec<rows::FuseRow>,
    r: Result<Vec<GrizolFileInfo>, BadRow>,
    i: int,
)
    requires
        call_ensures(BepState::files_fuse, (files,), r),
        0 <= i < files@.len(),
    ensures
        r is Ok <==> forall|j: int| 0 <= j < files@.len() ==> reading::fits((#[trigger] files@[j])@.file),
        r matches Ok(shown) ==> exists|k: int|
            0 <= k < shown@.len() && (#[trigger] shown@[k]).folder@ == files@[i].file.folder@
                && shown@[k].file_info.name@ == files@[i].file.name@,
{
    let all = crate::views(files@);
    reading::law_every_file_shown_once(all);
    if forall|j: int| 0 <= j < all.len() ==> reading::fits((#[trigger] all[j]).file) {
        assert forall|j: int| 0 <= j < files@.len() implies reading::fits(
            (#[trigger] files@[j])@.file,
        ) by {
            assert(all[j] == files@[j]@);
        }
    }
    if forall|j: int| 0 <= j < files@.len() ==> reading::fits((#[trigger] files@[j])@.file) {
        assert forall|j: int| 0 <= j < all.len() implies reading::fits(
            (#[trigger] all[j]).file,
        ) by {
            assert(all[j] == files@[j]@);
        }
    }
    if let Ok(shown) = r {
        reading::law_file_of_every_row(all, i);
        let fs = rows::fuse_files_of(all)->Ok_0;
        let k = choose|k: int|
            0 <= k < fs.len() && (#[trigger] fs[k]).folder == all[i].file.folder
                && fs[k].file_info.name == all[i].file.name;
        assert(crate::views(shown@)[k] == shown@[k]@);
        assert(all[i] == files@[i]@);
    }
}

/// The devices of a folder are those whose rows name it.
pub proof fn law_cluster_config(
    devices: &Vec<rows::DeviceRow>,
    folders: &Vec<rows::FolderRow>,
    r: Result<ClusterConfig, BadRow>,
    i: int,
)
    requires
        call_ensures(BepState::cluster_config, (devices, folders), r),
        0 <= i < folders@.len(),
    ensures
        r matches Ok(c) ==> c@.folders.len() == folders@.len() && reading::has_its_devices(
            c@.folders[i],
            folders@[i]@,
            crate::views(devices@),
        ),
{
    if r is Ok {
        let ds = crate::views(devices@);
        let fs = crate::views(folders@);
        reading::law_devices_of_their_folders(ds, fs);
        assert(fs[i] == folders@[i]@);
        assert(reading::has_its_devices(rows::cluster_of(ds, fs).folders[i], fs[i], ds));
    }
}

// ---------------------------------------------------------------------------
// Requests

/// Each request asks for its block.
pub proof fn law_requests_from_blocks(
    base: i32,
    blocks: &Vec<BlockInfoExt>,
    r: Vec<Request>,
    i: int,
)
    requires
        base + blocks@.len() <= i32::MAX,
        call_ensures(bep_processor::requests_from_blocks, (base, blocks), r),
        0 <= i < blocks@.len(),
    ensures
        r@.len() == blocks@.len(),
        r@[i].folder@ == blocks@[i].folder@,
        r@[i].name@ == blocks@[i].name@,
        r@[i].offset == blocks@[i].offset,
        r@[i].size == blocks@[i].size,
        r@[i].hash@ == blocks@[i].hash@,
        r@[i].id == base + i + 1,
{
}

/// The data of a response is that of the request with its number, and of no other.
pub proof fn law_begin_response(
    state: &BepState,
    response: &Response,
    r: Result<Request, bep_processor::BepProcessorError>,
)
    requires
        call_ensures(bep_processor::begin_response, (state, response), r),
    ensures
        r is Ok <==> {
            &&& response@.code == 0
            &&& state@.requests.dom().contains(response@.id)
            &&& device_id::sha256_of(response@.data) == state@.requests[response@.id].hash
        },
        r matches Ok(x) ==> x@ == state@.requests[response@.id],
{
}

// ---------------------------------------------------------------------------
// Storage

/// A file is copied into the read cache from where it is kept, to where it is read, and from
/// there it is removed when it has to leave.
pub proof fn law_read_cache(
    manager: &StorageManager,
    folder: &str,
    name: &str,
    copy: Vec<String>,
    path: String,
    local: String,
)
    requires
        call_ensures(StorageManager::cp_remote_to_read_cache, (manager, folder, name), copy),
        call_ensures(StorageManager::read_cache_path, (manager, folder, name), path),
        call_ensures(StorageManager::local_path, (manager, folder, name), local),
    ensures
        crate::views(copy@).len() == 5,
        crate::views(copy@)[0] == "rclone"@,
        crate::views(copy@)[2] == "copyto"@,
        crate::views(copy@)[3] == storage::upload_op(
            manager@,
            folder@,
            name@,
            "gcs"@,
        ).location,
        crate::views(copy@)[4] == path@,
        path@ == manager@.read_cache_dir + "/"@ + folder@ + "/"@ + name@,
        local@ == manager@.local_base_dir + "/"@ + folder@ + "/"@ + name@,
{
}

/// The files that leave the read cache are those that were given, one for each.
pub proof fn law_read_cache_freed(
    manager: &StorageManager,
    removed: &Vec<(String, String)>,
    r: Vec<String>,
    i: int,
)
    requires
        call_ensures(StorageManager::free_read_cache, (manager, removed), r),
        0 <= i < removed@.len(),
    ensures
        r@.len() == removed@.len(),
        r@[i]@ == manager@.read_cache_dir + "/"@ + removed@[i].0@ + "/"@ + removed@[i].1@,
{
}

/// A file is copied to all backends, and removed from all of them.
pub proof fn law_all_backends(
    manager: &StorageManager,
    folder: &str,
    name: &str,
    up: Vec<RemoteOp>,
    gone: Vec<RemoteOp>,
    i: int,
)
    requires
        call_ensures(StorageManager::cp_local_to_remote, (manager, folder, name), up),
        call_ensures(StorageManager::rm, (manager, folder, name), gone),
        0 <= i < manager@.storage_backends.len(),
    ensures
        up@.len() == manager@.storage_backends.len(),
        gone@.len() == manager@.storage_backends.len(),
        up@[i].storage_backend@ == manager@.storage_backends[i],
        gone@[i].storage_backend@ == manager@.storage_backends[i],
        up@[i].location@ == gone@[i].location@,
        crate::views(up@[i].command@)[4] == up@[i].location@,
        crate::views(gone@[i].command@)[3] == up@[i].location@,
        crate::views(gone@[i].command@)[2] == "delete"@,
{
    assert(crate::views(up@)[i] == storage::upload_op(
        manager@,
        folder@,
        name@,
        manager@.storage_backends[i],
    ));
    assert(crate::views(gone@)[i] == storage::delete_op(
        manager@,
        folder@,
        name@,
        manager@.storage_backends[i],
    ));
    assert(crate::views(up@).len() == up@.len());
    assert(crate::views(gone@).len() == gone@.len());
    assert(crate::views(up@)[i] == up@[i]@);
    assert(crate::views(gone@)[i] == gone@[i]@);
}

/// Reading goes on until enough was read or the file ends.
pub proof fn law_reading_goes_on(size: u32, total: usize, read_bytes: usize, r: CacheRead)
    requires
        total < size,
        read_bytes <= size,
        call_ensures(storage::after_cache_read, (size, total, read_bytes), r),
    ensures
        r is Stop <==> read_bytes == 0,
        r is SkipAndRead <==> read_bytes > 0 && total + read_bytes < size,
        r is SkipAndStop <==> read_bytes > 0 && total + read_bytes >= size,
        r matches CacheRead::SkipAndRead(n) ==> n == read_bytes,
        r matches CacheRead::SkipAndStop(n) ==> n == read_bytes,
{
}

// ---------------------------------------------------------------------------
// Statements

/// Where a file is kept is written for each place, all or nothing.
pub proof fn law_locations_written(
    folder: &str,
    device: &DeviceId,
    name: &str,
    locations: &Vec<(String, String)>,
    r: Vec<Statement>,
    i: int,
)
    requires
        call_ensures(BepState::update_file_locations, (folder, device, name, locations), r),
        0 <= i < locations@.len(),
    ensures
        r@.len() == locations@.len() + 2,
        r@[0]@.query is Begin,
        r@[r@.len() - 1]@.query is End,
        r@[i + 1]@ == (StatementView {
            query: Query::InsertLocation,
            values: seq![
                ValueView::Text(folder@),
                ValueView::Text(device_id::text_of_id(device.id@)),
                ValueView::Text(name@),
                ValueView::Text(locations@[i].0@),
                ValueView::Text(locations@[i].1@),
            ],
        }),
{
    let ss = crate::views(r@);
    assert(ss.len() == r@.len());
    assert(ss[0] == r@[0]@);
    assert(ss[i + 1] == r@[i + 1]@);
    assert(ss[ss.len() - 1] == r@[r@.len() - 1]@);
    assert(bep_state::pair_views(locations@)[i] == (locations@[i].0@, locations@[i].1@));
}

/// The file that is no longer kept on backends is said not to be on any of them.
pub proof fn law_locations_removed(
    folder: &str,
    device: &DeviceId,
    name: &str,
    backends: &Vec<String>,
    r: Vec<Statement>,
    i: int,
)
    requires
        call_ensures(BepState::remove_file_locations, (folder, device, name, backends), r),
        0 <= i < backends@.len(),
    ensures
        r@.len() == backends@.len() + 2,
        r@[0]@.query is Begin,
        r@[r@.len() - 1]@.query is End,
        r@[i + 1]@ == (StatementView {
            query: Query::DeleteLocation,
            values: seq![
                ValueView::Text(folder@),
                ValueView::Text(device_id::text_of_id(device.id@)),
                ValueView::Text(name@),
                ValueView::Text(backends@[i]@),
            ],
        }),
{
    let ss = crate::views(r@);
    assert(ss.len() == r@.len());
    assert(ss[0] == r@[0]@);
    assert(ss[i + 1] == r@[i + 1]@);
    assert(ss[ss.len() - 1] == r@[r@.len() - 1]@);
    assert(crate::views(backends@)[i] == backends@[i]@);
}

/// Replacing an index starts with removing the files of the folder and the device.
pub proof fn law_replacing_starts(folder: &str, device: &DeviceId, r: Vec<Statement>)
    requires
        call_ensures(BepState::replace_index_start, (folder, device), r),
    ensures
        r@.len() == 2,
        r@[0]@.query is Begin,
        r@[1]@ == (StatementView {
            query: Query::DeleteFiles,
            values: seq![
                ValueView::Text(folder@),
                ValueView::Text(device_id::text_of_id(device.id@)),
            ],
        }),
{
    let ss = crate::views(r@);
    assert(ss.len() == 2);
    assert(ss[0] == r@[0]@);
    assert(ss[1] == r@[1]@);
}

/// A file is removed from the index of its folder and its device.
pub proof fn law_file_removed(folder: &str, device: &DeviceId, name: &str, r: Statement)
    requires
        call_ensures(BepState::rm_file_info, (folder, device, name), r),
    ensures
        r@ == (StatementView {
            query: Query::DeleteFile,
            values: seq![
                ValueView::Text(folder@),
                ValueView::Text(device_id::text_of_id(device.id@)),
                ValueView::Text(name@),
            ],
        }),
{
}

/// The block that a response was for is marked as stored, by the request with its number.
pub proof fn law_block_stored(
    state: &BepState,
    id: &i32,
    device: &DeviceId,
    r: Result<Vec<Statement>, bep_state::StateError>,
)
    requires
        call_ensures(BepState::block_stored, (state, id, device), r),
    ensures
        r is Ok <==> state@.requests.dom().contains(*id),
        r matches Ok(ss) ==> {
            let request = state@.requests[*id];
            &&& ss@.len() == 2
            &&& ss@[1]@ == (StatementView {
                query: Query::SetBlockStatus,
                values: seq![
                    ValueView::Int(1),
                    ValueView::Text(request.name),
                    ValueView::Text(request.folder),
                    ValueView::Text(device_id::text_of_id(device.id@)),
                    ValueView::Bytes(request.hash),
                ],
            })
        },
{
    if let Ok(ss) = r {
        let vs = crate::views(ss@);
        assert(vs.len() == 2);
        assert(vs[1] == ss@[1]@);
    }
}

// ---------------------------------------------------------------------------
// The file system

/// What is shown is read again when it is as old as the rate says, or was never read.
pub proof fn law_refreshed_in_time(elapsed_ms: Option<u64>, rate_ms: u64, r: bool)
    requires
        call_ensures(fuse::needs_refresh, (elapsed_ms, rate_ms), r),
    ensures
        r <==> (elapsed_ms is None || elapsed_ms->0 >= rate_ms),
{
}

/// The folders of a cluster that a device shares are those that list it.
pub proof fn law_folders_shared(
    cluster: &ClusterConfig,
    device: &DeviceId,
    r: Vec<String>,
    folder: Seq<char>,
)
    requires
        call_ensures(bep_processor::folders_shared_with, (cluster, device), r),
    ensures
        crate::views(r@).contains(folder) <==> exists|i: int|
            0 <= i < cluster@.folders.len() && (#[trigger] cluster@.folders[i]).id == folder
                && processing::is_shared(cluster@.folders[i], device.id@),
{
    processing::law_shared_folders(cluster@.folders, device.id@, folder);
}

} // verus!
