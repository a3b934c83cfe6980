use grizol::bep_state::{
    block_upload_status, conflict_time, new_file_path, renamed_path, too_many_blocks, BepState,
    BlockCount, BlockInfoExt, ConflictTime, Removal, SequenceLookup, StateError, StorageStatus,
};
use grizol::device_id::DeviceId;
use grizol::rows::{
    join_commas, BadRow, BlockRow, DeviceRow, FileRow, FolderRow, FuseRow, IndexRow, VersionRow,
};
use grizol::statements::{from_be_bytes, to_be_bytes, Query, Statement, Value};
use grizol::syncthing::{
    BlockInfo, ClusterConfig, Counter, Device, FileInfo, Folder, Request, Vector,
};
use grizol::types::UploadStatus;
use grizol::wire::Message;

const SECS: i64 = 97445;

#[test]
fn new_file_path_wo_parent_adds_suffix() {
    let new_path = new_file_path("ABC", "deviceid", SECS);
    assert_eq!(new_path.unwrap(), "ABC.sync-conflict-19700102-030405-deviceid");
}

#[test]
fn new_file_path_w_parent_adds_suffix() {
    let new_path = new_file_path("ABC/ABC", "deviceid", SECS);
    assert_eq!(new_path.unwrap(), "ABC/ABC.sync-conflict-19700102-030405-deviceid");
}

#[test]
fn new_file_path_w_ext_adds_suffix() {
    let new_path = new_file_path("ABC/ABC.xyz", "deviceid", SECS);
    assert_eq!(new_path.unwrap(), "ABC/ABC.sync-conflict-19700102-030405-deviceid.xyz");
}

#[test]
fn new_file_path_w_ext_wo_parent_adds_suffix() {
    let new_path = new_file_path("ABC.xyz", "deviceid", SECS);
    assert_eq!(new_path.unwrap(), "ABC.sync-conflict-19700102-030405-deviceid.xyz");
}

#[test]
fn a_path_without_a_name_is_not_renamed() {
    assert_eq!(new_file_path("..", "deviceid", SECS), None);
    let at = conflict_time(SECS).unwrap();
    assert_eq!(at, ConflictTime { date: "19700102".to_string(), time: "030405".to_string() });
    assert_eq!(renamed_path("a", "d", &at), Some("a.sync-conflict-19700102-030405-d".to_string()));
    assert_eq!(conflict_time(i64::MAX), None);
}

fn device() -> DeviceId {
    DeviceId::from_certificate(b"device")
}

fn text(s: &str) -> Value {
    Value::Text(s.to_string())
}

fn queries(statements: &Vec<Statement>) -> Vec<Query> {
    statements.iter().map(|s| s.query).collect()
}

fn file(name: &str) -> FileInfo {
    let mut f = FileInfo::empty();
    f.name = name.to_string();
    f.size = 5;
    f.modified_by = 0x0102030405060708;
    f.version = Some(Vector { counters: vec![Counter { id: 1, value: 2 }] });
    f.blocks = vec![BlockInfo { offset: 0, size: 5, hash: vec![7; 32], weak_hash: 9 }];
    f
}

#[test]
fn changes_are_counted_up() {
    let mut state = BepState::new();
    assert!(state.needs_sequence());
    assert_eq!(state.next_sequence_id(), Err(StateError::NoSequence));
    state.set_sequence(SequenceLookup::Found(41));
    assert!(!state.needs_sequence());
    assert_eq!(state.next_sequence_id(), Ok(42));
    assert_eq!(state.next_sequence_id(), Ok(43));
    state.set_sequence(SequenceLookup::Failed);
    assert_eq!(state.next_sequence_id(), Ok(1));
    state.set_sequence(SequenceLookup::Found(i64::MAX));
    assert_eq!(state.next_sequence_id(), Err(StateError::SequenceExhausted));
    state.set_sequence(SequenceLookup::Empty);
    assert!(state.needs_sequence());
}

#[test]
fn an_index_is_made_sure_of() {
    let s = BepState::init_index("f", &device());
    assert_eq!(s.query, Query::InitIndex);
    assert_eq!(s.values, vec![text(&device().to_string()), text("f")]);
}

#[test]
fn files_are_written_with_versions_and_blocks() {
    let mut state = BepState::new();
    state.set_sequence(SequenceLookup::Found(10));
    assert_eq!(
        queries(&BepState::replace_index_start("f", &device())),
        vec![Query::Begin, Query::DeleteFiles]
    );
    let statements = state.replace_index("f", &device(), &vec![file("a"), file("b")]).unwrap();
    assert_eq!(
        queries(&statements),
        vec![
            Query::InsertFile,
            Query::InsertVersion,
            Query::InsertBlock,
            Query::InsertFile,
            Query::InsertVersion,
            Query::InsertBlock,
            Query::End
        ]
    );
    assert_eq!(statements[0].values[2], text("a"));
    assert_eq!(statements[3].values[12], Value::Int(12));
    assert_eq!(state.next_sequence_id(), Ok(13));
}

#[test]
fn a_file_that_makes_no_sense_is_refused() {
    let mut state = BepState::new();
    state.set_sequence(SequenceLookup::Found(0));
    let mut f = file("a");
    f.version = None;
    assert_eq!(
        state.insert_file_info("f", &device(), &vec![f]),
        Err(StateError::NoVersion)
    );
    let mut f = file("a");
    f.version = Some(Vector { counters: vec![Counter { id: 1, value: u64::MAX }] });
    assert_eq!(
        state.insert_file_info("f", &device(), &vec![f]),
        Err(StateError::CounterTooLarge)
    );
}

#[test]
fn files_that_are_replaced_make_room_first() {
    let mut state = BepState::new();
    state.set_sequence(SequenceLookup::Found(0));
    let mut gone = file("gone");
    gone.deleted = true;
    let files = vec![gone, file("a.txt"), file("b")];
    let removal = Removal::Rename(vec![
        conflict_time(SECS).unwrap(),
        conflict_time(SECS).unwrap(),
        conflict_time(SECS + 1).unwrap(),
    ]);
    let start =
        BepState::replace_file_info_start("f", &device(), &files, &removal).unwrap();
    assert_eq!(queries(&start), vec![Query::Begin, Query::RenameFile]);
    let (statements, renamed) =
        state.replace_file_info("f", &device(), &files, &removal).unwrap();
    assert_eq!(
        queries(&statements),
        vec![
            Query::InsertFile,
            Query::InsertVersion,
            Query::InsertBlock,
            Query::RenameFile,
            Query::InsertFile,
            Query::InsertVersion,
            Query::InsertBlock,
            Query::End
        ]
    );
    let first = format!("sync-conflict-19700102-030405-{}", device().to_string());
    let second = format!("sync-conflict-19700102-030406-{}", device().to_string());
    assert_eq!(
        renamed,
        vec![
            ("a.txt".to_string(), format!("a.{}.txt", first)),
            ("b".to_string(), format!("b.{}", second))
        ]
    );
    let one = Removal::Rename(vec![conflict_time(SECS).unwrap()]);
    let deleted = state.rm_replace_file_info("f", &device(), &vec![file("a"), file("b")]).unwrap();
    assert_eq!(queries(&deleted)[3], Query::DeleteFile);
    assert_eq!(
        BepState::replace_file_info_start("f", &device(), &vec![file("..")], &one),
        Err(StateError::NoFileName)
    );
}

fn request(id: i32) -> Request {
    Request {
        id,
        folder: "f".to_string(),
        name: "n".to_string(),
        offset: 0,
        size: 5,
        hash: vec![7; 32],
        from_temporary: false,
    }
}

#[test]
fn requests_are_remembered() {
    let mut state = BepState::new();
    assert_eq!(state.load_request_id(), 0);
    assert_eq!(state.fetch_add_request_id(3), 0);
    assert_eq!(state.load_request_id(), 3);
    state.insert_requests(&vec![request(1), request(2)]);
    assert_eq!(state.get_request(&2), Some(&request(2)));
    assert_eq!(state.remove_request(&2), Some(request(2)));
    assert_eq!(state.get_request(&2), None);
    assert_eq!(state.get_request(&1), Some(&request(1)));
}

#[test]
fn a_stored_block_is_noted() {
    let mut state = BepState::new();
    assert_eq!(state.block_stored(&1, &device()), Err(StateError::NoRequest));
    state.insert_requests(&vec![request(1)]);
    let statements = state.block_stored(&1, &device()).unwrap();
    assert_eq!(queries(&statements), vec![Query::Begin, Query::SetBlockStatus]);
    assert_eq!(statements[1].values[0], Value::Int(StorageStatus::StoredLocally.to_number()));
    assert_eq!(statements[1].values[4], Value::Bytes(vec![7; 32]));

    let count = BlockCount { block_size: 10, byte_size: 25, stored_blocks: 3 };
    let (status, statements) = state.update_block_storage_state(&1, &device(), count).unwrap();
    assert_eq!(status, Ok(UploadStatus::AllBlocks));
    assert_eq!(queries(&statements), vec![Query::InsertLocation, Query::End]);
    let count = BlockCount { block_size: 10, byte_size: 25, stored_blocks: 2 };
    let (status, statements) = state.update_block_storage_state(&1, &device(), count).unwrap();
    assert_eq!(status, Ok(UploadStatus::BlocksMissing));
    assert_eq!(queries(&statements), vec![Query::End]);
}

#[test]
fn blocks_are_counted() {
    let status = |block_size, byte_size, stored_blocks| {
        block_upload_status(BlockCount { block_size, byte_size, stored_blocks })
    };
    assert_eq!(status(10, 0, 1), Ok(UploadStatus::AllBlocks));
    assert_eq!(status(10, 0, 0), Ok(UploadStatus::BlocksMissing));
    assert_eq!(status(10, 20, 2), Ok(UploadStatus::AllBlocks));
    assert_eq!(status(10, 21, 2), Ok(UploadStatus::BlocksMissing));
    assert_eq!(status(10, 20, 3), Err(StateError::TooManyBlocks));
    assert_eq!(status(0, 20, 3), Err(StateError::BadSize));
    assert_eq!(status(i64::MAX, i64::MAX, 3), Err(StateError::BadSize));
    let count = BlockCount { block_size: 10, byte_size: 20, stored_blocks: 3 };
    assert_eq!(
        too_many_blocks("a", count),
        Some(
            "We ended up storing too many blocks for file: a, expected blocks 2, actual blocks 3"
                .to_string()
        )
    );
    let count = BlockCount { block_size: 10, byte_size: 20, stored_blocks: 2 };
    assert_eq!(too_many_blocks("a", count), None);
}

#[test]
fn locations_are_written_and_removed() {
    let written = BepState::update_file_locations(
        "f",
        &device(),
        "n",
        &vec![("gcs".to_string(), "gcs:b/f/n".to_string())],
    );
    assert_eq!(queries(&written), vec![Query::Begin, Query::InsertLocation, Query::End]);
    assert_eq!(written[1].values[3..], [text("gcs"), text("gcs:b/f/n")]);
    let removed =
        BepState::remove_file_locations("f", &device(), "n", &vec!["local".to_string()]);
    assert_eq!(queries(&removed), vec![Query::Begin, Query::DeleteLocation, Query::End]);
    let deleted = BepState::rm_file_info("f", &device(), "n");
    assert_eq!(deleted.query, Query::DeleteFile);
    assert_eq!(deleted.values, vec![text("f"), text(&device().to_string()), text("n")]);
}

fn row(name: &str) -> FileRow {
    FileRow {
        folder: "f".to_string(),
        device: device().to_string(),
        name: name.to_string(),
        file_type: 0,
        size: 10,
        permissions: 0o644,
        modified_s: 100,
        modified_ns: 200,
        modified_by: vec![0, 0, 0, 0, 0, 0, 1, 0],
        deleted: 0,
        invalid: 0,
        no_permissions: 1,
        sequence: 3,
        block_size: 5,
        symlink_target: "".to_string(),
    }
}

fn index_row(name: &str, offset: i64) -> IndexRow {
    IndexRow {
        file: row(name),
        offset: Some(offset),
        bi_size: Some(5),
        hash: Some(vec![1; 32]),
        weak_hash: None,
    }
}

fn version_row(name: &str) -> VersionRow {
    VersionRow { name: name.to_string(), id: vec![0, 0, 0, 0, 0, 0, 0, 5], value: 6 }
}

#[test]
fn an_index_is_put_together_from_rows() {
    let index = BepState::index(
        "f",
        &vec![index_row("a", 0), index_row("b", 0), index_row("a", 5)],
        &vec![version_row("a"), version_row("zzz")],
    )
    .unwrap();
    assert_eq!(index.folder, "f");
    assert_eq!(index.files.len(), 2);
    let a = index.files.iter().find(|f| f.name == "a").unwrap();
    assert_eq!(a.blocks.iter().map(|b| b.offset).collect::<Vec<i64>>(), vec![0, 5]);
    assert_eq!(a.version, Some(Vector { counters: vec![Counter { id: 5, value: 6 }] }));
    assert_eq!(a.modified_by, 256);
    assert!(a.no_permissions && !a.deleted);
    let mut bad = index_row("a", 0);
    bad.hash = None;
    assert_eq!(BepState::index("f", &vec![bad], &vec![]), Err(BadRow));
    let mut bad = index_row("a", 0);
    bad.file.modified_by = vec![0; 9];
    assert_eq!(BepState::index("f", &vec![bad], &vec![]), Err(BadRow));
}

#[test]
fn the_order_of_rows_does_not_matter() {
    let other = VersionRow { value: 7, ..version_row("a") };
    let mut rows = vec![index_row("a", 0), index_row("a", 5), index_row("b", 0)];
    let mut versions = vec![version_row("a"), other, version_row("b")];
    let mut found = vec![];
    for _ in 0..3 {
        rows.rotate_left(1);
        versions.rotate_left(1);
        let mut index = BepState::index("f", &rows, &versions).unwrap();
        index.files.sort_by(|x, y| x.name.cmp(&y.name));
        for f in index.files.iter_mut() {
            f.blocks.sort_by_key(|b| b.offset);
            f.version.as_mut().unwrap().counters.sort_by_key(|c| c.value);
        }
        found.push(index);
    }
    assert_eq!(found[0].files.len(), 2);
    assert_eq!(found[0].files[0].blocks.len(), 2);
    assert_eq!(found[0].files[0].version.as_ref().unwrap().counters.len(), 2);
    assert_eq!(found[0], found[1]);
    assert_eq!(found[1], found[2]);
}

#[test]
fn requests_are_kept_where_files_are_refused() {
    let mut state = BepState::new();
    state.set_sequence(SequenceLookup::Found(0));
    state.insert_requests(&vec![request(3)]);
    assert_eq!(state.fetch_add_request_id(3), 0);
    let mut f = file("a");
    f.version = None;
    assert!(state.replace_index("f", &device(), &vec![file("b"), f]).is_err());
    assert_eq!(state.get_request(&3), Some(&request(3)));
    assert_eq!(state.load_request_id(), 3);
}

#[test]
fn a_file_is_put_together_from_rows() {
    let block = || BlockRow {
        name: "a".to_string(),
        folder: "f".to_string(),
        offset: 5,
        bi_size: 4,
        hash: vec![1; 32],
        weak_hash: Some(8),
    };
    let f = BepState::file(&Some(row("a")), &vec![block()], &vec![version_row("a")])
        .unwrap()
        .unwrap();
    assert_eq!((f.name.as_str(), f.size, f.blocks[0].weak_hash), ("a", 10, 8));
    assert_eq!(BepState::file(&None, &vec![], &vec![]), Ok(None));

    let blocks = BepState::blocks_info(&device(), &vec![block()]).unwrap();
    assert_eq!(
        blocks,
        vec![BlockInfoExt {
            device_id: device(),
            folder: "f".to_string(),
            name: "a".to_string(),
            hash: vec![1; 32],
            size: 4,
            offset: 5
        }]
    );
    let mut bad = block();
    bad.bi_size = 1 << 40;
    assert_eq!(BepState::blocks_info(&device(), &vec![bad]), Err(BadRow));
}

#[test]
fn files_and_folders_for_the_file_system_come_from_rows() {
    let rows = vec![
        FuseRow { file: row("a"), row_id: 4 },
        FuseRow { file: row("a"), row_id: 5 },
        FuseRow { file: row("b"), row_id: 6 },
    ];
    let files = BepState::files_fuse(&rows).unwrap();
    assert_eq!(files.iter().map(|f| f.id).collect::<Vec<i64>>(), vec![4, 6]);
    assert_eq!(files[0].folder, "f");

    let folder = |row_id, id: &str| FolderRow {
        row_id,
        id: id.to_string(),
        label: "L".to_string(),
        read_only: 1,
        ignore_permissions: 0,
        ignore_delete: 0,
        disable_temp_indexes: 0,
        paused: 0,
    };
    let folders = BepState::top_folders_fuse(&vec![folder(Some(1), "x"), folder(None, "y")]);
    assert_eq!(folders.len(), 1);
    assert_eq!((folders[0].id, folders[0].folder.id.as_str()), (1, "x"));
    assert!(folders[0].folder.read_only);
}

#[test]
fn a_cluster_is_written_and_read_back() {
    let addresses = vec!["tcp://a:1".to_string(), "dynamic".to_string()];
    let shared = Device {
        id: device().to_bytes(),
        name: "d".to_string(),
        addresses: addresses.clone(),
        compression: 1,
        cert_name: "".to_string(),
        max_sequence: 4,
        introducer: true,
        index_id: u64::MAX,
        skip_introduction_removals: false,
        encryption_password_token: vec![1],
    };
    let mut folder = Folder::empty();
    folder.id = "f".to_string();
    folder.devices = vec![shared];
    let config = ClusterConfig { folders: vec![folder] };
    let statements = BepState::update_cluster_config(&config).unwrap();
    assert_eq!(
        queries(&statements),
        vec![Query::Begin, Query::InsertFolder, Query::InsertDevice, Query::End]
    );
    assert_eq!(statements[2].values[3], text("tcp://a:1,dynamic"));
    assert_eq!(statements[2].values[8], Value::Bytes(vec![255; 8]));

    let device_row = DeviceRow {
        folder: "f".to_string(),
        id: device().to_string(),
        name: "d".to_string(),
        addresses: join_commas(&addresses),
        cert_name: "".to_string(),
        max_sequence: 4,
        introducer: 1,
        index_id: vec![255; 8],
        skip_introduction_removals: 0,
        encryption_password_token: vec![1],
    };
    let folder_row = FolderRow {
        row_id: None,
        id: "f".to_string(),
        label: "".to_string(),
        read_only: 0,
        ignore_permissions: 0,
        ignore_delete: 0,
        disable_temp_indexes: 0,
        paused: 0,
    };
    let read = BepState::cluster_config(&vec![device_row], &vec![folder_row]).unwrap();
    assert_eq!(read, config);

    let mut bad = config;
    bad.folders[0].devices[0].id = vec![1];
    assert_eq!(BepState::update_cluster_config(&bad), Err(StateError::BadDeviceId));
}

#[test]
fn an_index_is_asked_for_per_folder_and_device() {
    let pairs = BepState::indices(&vec!["f".to_string(), "g".to_string()], &vec![device()]);
    assert_eq!(
        pairs,
        vec![("f".to_string(), device()), ("g".to_string(), device())]
    );
}

#[test]
fn numbers_are_kept_as_bytes() {
    assert_eq!(to_be_bytes(0x0102030405060708), vec![1, 2, 3, 4, 5, 6, 7, 8]);
    assert_eq!(from_be_bytes(&vec![1, 2, 3, 4, 5, 6, 7, 8]), Some(0x0102030405060708));
    assert_eq!(from_be_bytes(&vec![1]), Some(1 << 56));
    assert_eq!(from_be_bytes(&vec![0; 9]), None);
}

#[test]
fn a_file_that_is_written_is_read_back() {
    let mut state = BepState::new();
    state.set_sequence(SequenceLookup::Found(8));
    let statements = state.insert_file_info("f", &device(), &vec![file("a")]).unwrap();
    let text_at = |v: &Vec<Value>, i: usize| match &v[i] {
        Value::Text(s) => s.clone(),
        other => panic!("{:?}", other),
    };
    let bytes_at = |v: &Vec<Value>, i: usize| match &v[i] {
        Value::Bytes(b) => b.clone(),
        other => panic!("{:?}", other),
    };
    let int_at = |v: &Vec<Value>, i: usize| match &v[i] {
        Value::Int(n) => *n,
        Value::Flag(b) => *b as i64,
        other => panic!("{:?}", other),
    };
    let v = &statements[0].values;
    let file_row = FileRow {
        folder: text_at(v, 0),
        device: text_at(v, 1),
        name: text_at(v, 2),
        file_type: int_at(v, 3),
        size: int_at(v, 4),
        permissions: int_at(v, 5),
        modified_s: int_at(v, 6),
        modified_ns: int_at(v, 7),
        modified_by: bytes_at(v, 8),
        deleted: int_at(v, 9),
        invalid: int_at(v, 10),
        no_permissions: int_at(v, 11),
        sequence: int_at(v, 12),
        block_size: int_at(v, 13),
        symlink_target: text_at(v, 14),
    };
    let v = &statements[1].values;
    let version =
        VersionRow { name: text_at(v, 2), id: bytes_at(v, 3), value: int_at(v, 4) };
    let v = &statements[2].values;
    let block = BlockRow {
        name: text_at(v, 0),
        folder: text_at(v, 1),
        offset: int_at(v, 3),
        bi_size: int_at(v, 4),
        hash: bytes_at(v, 5),
        weak_hash: Some(int_at(v, 6)),
    };
    let read = BepState::file(&Some(file_row), &vec![block], &vec![version]).unwrap().unwrap();
    let mut expected = file("a");
    expected.sequence = 9;
    assert_eq!(read, expected);
}
