use grizol::bep_data_parser::CompleteMessage;
use grizol::bep_processor::{
    begin_response, begin_response_with, can_request, check_data, check_digest,
    cluster_config_reply, compare_timestamps, compare_versions, compute_weak_hash, diff_indices, folders_shared_with, requests_from_blocks,
    store_outgoing_requests, store_outgoing_requests_at, BepProcessor, BepProcessorError,
    DiffError, FileOrder, IndexAction, IndexFlow, IndexFlowError, IndexReply, ResponseAction,
    ResponseFlow, ResponseReply, Side, Task,
};
use grizol::bep_state::{BepState, BlockInfoExt};
use grizol::config::{Config, GrizolConfig, StorageStrategy};
use grizol::device_id::DeviceId;
use grizol::outgoing_requests::OutgoingRequests;
use grizol::statements::Query;
use grizol::syncthing::{
    Close, ClusterConfig, Counter, Device, DownloadProgress, FileInfo, Folder, Hello, Index,
    IndexUpdate, Ping, Request, Response, Vector,
};
use grizol::types::{GrizolEvent, UploadStatus};
use grizol::wire::Message;

fn file(name: &str, id: u64, value: u64, modified_s: i64) -> FileInfo {
    let mut f = FileInfo::empty();
    f.name = name.to_string();
    f.modified_s = modified_s;
    f.version = Some(Vector { counters: vec![Counter { id, value }] });
    f
}

fn index(files: Vec<FileInfo>) -> Index {
    Index { folder: "f".to_string(), files }
}

fn names(files: &Vec<FileInfo>) -> Vec<&str> {
    files.iter().map(|f| f.name.as_str()).collect()
}

fn sha_of_abc() -> Vec<u8> {
    vec![
        0xba, 0x78, 0x16, 0xbf, 0x8f, 0x01, 0xcf, 0xea, 0x41, 0x41, 0x40, 0xde, 0x5d, 0xae, 0x22,
        0x23, 0xb0, 0x03, 0x61, 0xa3, 0x96, 0x17, 0x7a, 0x9c, 0xb4, 0x10, 0xff, 0x61, 0xf2, 0x00,
        0x15, 0xad,
    ]
}

fn request(id: i32) -> Request {
    Request {
        id,
        folder: "f".to_string(),
        name: "n".to_string(),
        offset: 0,
        size: 3,
        hash: sha_of_abc(),
        from_temporary: false,
    }
}

fn block(offset: i64) -> BlockInfoExt {
    BlockInfoExt {
        device_id: DeviceId::from_certificate(b"local"),
        folder: "f".to_string(),
        name: "n".to_string(),
        hash: vec![offset as u8; 32],
        size: 10,
        offset,
    }
}

fn config(max_pending: u64) -> GrizolConfig {
    let config = Config {
        name: "me".to_string(),
        address: "".to_string(),
        cert: String::new(),
        key: String::new(),
        base_dir: "".to_string(),
        db_url: "".to_string(),
        storage_strategy: 2,
        rclone_config: "".to_string(),
        remote_base_dir: "".to_string(),
        read_cache_dir: "".to_string(),
        read_cache_size: "".to_string(),
        mountpoint: "".to_string(),
        fuse_refresh_rate_ms: None,
        max_pending_requests: Some(max_pending),
        max_total_pending_requests_size: "".to_string(),
        trusted_peers: vec![],
        fuse_inmem: false,
    };
    let pem = b"-----BEGIN CERTIFICATE-----\nbG9jYWw=\n-----END CERTIFICATE-----\n";
    GrizolConfig::from_config(config, pem, 0, 0).unwrap()
}

#[test]
fn files_are_compared_by_their_highest_counter() {
    assert_eq!(
        compare_versions(&file("a", 1, 2, 0), &file("a", 2, 3, 0)),
        Some(FileOrder::Older)
    );
    assert_eq!(
        compare_versions(&file("a", 1, 4, 0), &file("a", 2, 3, 0)),
        Some(FileOrder::Newer)
    );
    assert_eq!(
        compare_versions(&file("a", 1, 4, 0), &file("a", 1, 4, 0)),
        Some(FileOrder::Same)
    );
    assert_eq!(compare_versions(&file("a", 1, 4, 0), &file("a", 2, 4, 0)), None);
}

#[test]
fn files_are_compared_by_time() {
    assert_eq!(
        compare_timestamps(&file("a", 1, 4, 5), &file("a", 2, 4, 6)),
        FileOrder::Older
    );
    assert_eq!(
        compare_timestamps(&file("a", 1, 4, 7), &file("a", 2, 4, 6)),
        FileOrder::Newer
    );
}

#[test]
fn the_difference_of_indices_is_what_is_new() {
    let existing = index(vec![
        file("old", 1, 1, 0),
        file("same", 1, 1, 0),
        file("new", 1, 5, 0),
        file("later", 1, 1, 10),
        file("earlier", 1, 1, 30),
    ]);
    let added = index(vec![
        file("old", 1, 2, 0),
        file("same", 1, 1, 0),
        file("new", 1, 2, 0),
        file("later", 2, 1, 20),
        file("earlier", 2, 1, 20),
        file("unknown", 1, 1, 0),
    ]);
    let diff = diff_indices("f", &added, &existing).unwrap();
    assert_eq!(names(&diff.newly_added_files), vec!["old", "unknown"]);
    assert_eq!(names(&diff.newly_added_conflicting_files), vec!["later"]);
    assert_eq!(names(&diff.existing_conflicting_files), vec!["earlier"]);
    let again = diff_indices("f", &existing, &existing).unwrap();
    assert!(again.newly_added_files.is_empty());
}

#[test]
fn indices_that_cannot_be_compared_are_refused() {
    let a = index(vec![file("a", 1, 1, 5)]);
    assert_eq!(diff_indices("g", &a, &a).err(), Some(DiffError::DifferentFolders));
    let b = index(vec![file("a", 2, 1, 5)]);
    assert_eq!(diff_indices("f", &b, &a).err(), Some(DiffError::SameTime));
    let mut c = index(vec![file("a", 2, 1, 5)]);
    c.files[0].version = None;
    assert_eq!(diff_indices("f", &c, &a).err(), Some(DiffError::NoVersion));
    assert_eq!(DiffError::DifferentFolders.to_text(), "The indices cover different folders");
    assert_eq!(DiffError::NoVersion.to_text(), "A file has no version");
    assert_eq!(
        DiffError::SameTime.to_text(),
        "It should mean we are comparing the same file, which should not happen"
    );
}

#[test]
fn blocks_are_asked_for_with_new_ids() {
    let requests = requests_from_blocks(7, &vec![block(0), block(10)]);
    assert_eq!(requests.iter().map(|r| r.id).collect::<Vec<i32>>(), vec![8, 9]);
    assert_eq!(requests[1].offset, 10);
    assert_eq!(requests[1].hash, vec![10; 32]);

    let mut state = BepState::new();
    let mut queue = OutgoingRequests::default();
    assert!(can_request(&state, &vec![block(0), block(10)]));
    let sent = store_outgoing_requests(&mut state, &mut queue, &vec![block(0), block(10)]);
    assert_eq!(sent.len(), 2);
    assert_eq!(state.load_request_id(), 2);
    assert_eq!(state.get_request(&2), Some(&sent[1]));
    let sent = store_outgoing_requests_at(&mut state, &mut queue, &vec![block(0), block(20)], 1);
    assert_eq!(sent.iter().map(|r| r.offset).collect::<Vec<i64>>(), vec![20]);

    let mut bad = block(0);
    bad.hash = vec![];
    assert!(!can_request(&state, &vec![bad]));
}

#[test]
fn a_response_is_held_against_its_request() {
    let mut state = BepState::new();
    let response = |id, data: &[u8], code| Response { id, data: data.to_vec(), code };
    assert_eq!(
        begin_response(&state, &response(5, b"abc", 0)),
        Err(BepProcessorError::NoAssociatedReqeust(
            "Response with id 5 does not have a corresponding request".to_string()
        ))
    );
    assert_eq!(
        begin_response(&state, &response(5, b"", 2)).unwrap_err().to_string(),
        "ErrorInResponse: Request with id 5 genereated response containing error: 2 "
    );
    state.insert_requests(&vec![request(5)]);
    assert_eq!(begin_response(&state, &response(5, b"abc", 0)), Ok(request(5)));
    assert!(matches!(
        begin_response(&state, &response(5, b"abd", 0)),
        Err(BepProcessorError::WrongDataInResponse(_))
    ));
    assert!(matches!(
        begin_response_with(&state, &response(5, b"abc", 0), &[0; 32]),
        Err(BepProcessorError::WrongDataInResponse(_))
    ));
    let zeros = vec!["0"; 32].join(", ");
    let hash: Vec<String> = sha_of_abc().iter().map(|b| b.to_string()).collect();
    let hash = hash.join(", ");
    let mismatch = format!(
        "Hash of incoming data does not match requested data, expected [{}], got [{}]",
        hash, zeros
    );
    assert_eq!(
        begin_response_with(&state, &response(5, b"abc", 0), &[0; 32]).unwrap_err().to_string(),
        format!(
            "WrongDataInResponse: Wrong data received for request Request {{ id: 5, folder: \"f\", \
             name: \"n\", offset: 0, size: 3, hash: [{}], from_temporary: false }}: {}",
            hash, mismatch
        )
    );
    assert_eq!(check_data(b"abc", &sha_of_abc()), Ok(()));
    assert!(check_data(b"", &sha_of_abc()).is_err());
    assert_eq!(check_digest(&[0; 32], &sha_of_abc()), Err(mismatch));
    assert_eq!(compute_weak_hash(&b"abc".to_vec()), 0);
}

#[test]
fn names_are_quoted_in_messages() {
    let mut state = BepState::new();
    let mut asked = request(5);
    asked.name = "a\"b\n".to_string();
    let shown = format!("{:?}", asked);
    state.insert_requests(&vec![asked]);
    let response = Response { id: 5, data: vec![], code: 0 };
    match begin_response_with(&state, &response, &[0; 32]) {
        Err(BepProcessorError::WrongDataInResponse(m)) => assert!(m.contains(&shown)),
        other => panic!("{:?}", other),
    }
}

fn stored(strategy: StorageStrategy) -> Vec<String> {
    let mut flow = ResponseFlow::new(&request(1), strategy);
    let mut reply = ResponseReply::FileSize(Some(3));
    let mut done = vec![];
    loop {
        let action = flow.next(reply);
        done.push(format!("{:?}", action).split('(').next().unwrap().to_string());
        reply = match action {
            ResponseAction::MarkBlock => ResponseReply::Status(Ok(UploadStatus::AllBlocks)),
            ResponseAction::CopyToRemote => {
                ResponseReply::Copied(Ok(vec![("gcs".to_string(), "x".to_string())]))
            }
            ResponseAction::WriteLocations(ref l) => {
                assert_eq!(l.len(), 1);
                ResponseReply::Did(Ok(()))
            }
            ResponseAction::StoreBlock(size) => {
                assert_eq!(size, 3);
                ResponseReply::Did(Ok(()))
            }
            ResponseAction::Finish | ResponseAction::Fail(_) => return done,
            _ => ResponseReply::Did(Ok(())),
        };
    }
}

#[test]
fn a_file_goes_where_the_strategy_says() {
    assert_eq!(
        stored(StorageStrategy::Local),
        vec!["StoreBlock", "MarkBlock", "ForgetRequest", "Finish"]
    );
    assert_eq!(
        stored(StorageStrategy::LocalRemote),
        vec![
            "StoreBlock",
            "MarkBlock",
            "CopyToRemote",
            "WriteLocations",
            "ForgetRequest",
            "Finish"
        ]
    );
    assert_eq!(
        stored(StorageStrategy::Remote),
        vec![
            "StoreBlock",
            "MarkBlock",
            "CopyToRemote",
            "WriteLocations",
            "ForgetLocalLocation",
            "RemoveLocalFile",
            "ForgetRequest",
            "Finish"
        ]
    );
}

#[test]
fn storing_ends_where_something_fails() {
    let failed = |reply| match ResponseFlow::new(&request(1), StorageStrategy::Local).next(reply) {
        ResponseAction::Fail(e) => e,
        other => panic!("{:?}", other),
    };
    assert_eq!(
        failed(ResponseReply::FileSize(None)),
        BepProcessorError::FileNotInIndex("Requesting a file not in the local index: n".to_string())
    );
    assert!(matches!(failed(ResponseReply::FileSize(Some(-1))), BepProcessorError::StateError(_)));
    let mut flow = ResponseFlow::new(&request(1), StorageStrategy::Local);
    flow.next(ResponseReply::FileSize(Some(3)));
    match flow.next(ResponseReply::Did(Err("disk".to_string()))) {
        ResponseAction::Fail(e) => {
            assert_eq!(e, BepProcessorError::StorageError("disk".to_string()))
        }
        other => panic!("{:?}", other),
    }
    let mut flow = ResponseFlow::new(&request(1), StorageStrategy::Remote);
    flow.next(ResponseReply::FileSize(Some(3)));
    flow.next(ResponseReply::Did(Ok(())));
    match flow.next(ResponseReply::Status(Ok(UploadStatus::BlocksMissing))) {
        ResponseAction::ForgetRequest => {}
        other => panic!("{:?}", other),
    }
}

#[test]
fn an_index_replaces_that_of_the_peer() {
    let mut flow = IndexFlow::new(index(vec![file("a", 1, 2, 0), file("b", 1, 1, 0)]), false);
    assert_eq!(flow.received().folder, "f");
    assert!(matches!(flow.next(IndexReply::Did), Ok(IndexAction::ReplaceClientIndex)));
    assert!(matches!(
        flow.next(IndexReply::Did),
        Ok(IndexAction::ReadIndex(Side::Local))
    ));
    match flow.next(IndexReply::Read(Some(index(vec![file("a", 1, 2, 0)])))) {
        Ok(IndexAction::InsertFiles(Side::Local, files)) => assert_eq!(names(&files), vec!["b"]),
        other => panic!("{:?}", other),
    }
    assert!(matches!(flow.next(IndexReply::Did), Ok(IndexAction::RequestBlocks)));
}

#[test]
fn an_update_changes_both_indices() {
    let mut flow = IndexFlow::new(index(vec![file("a", 1, 2, 0)]), true);
    assert!(matches!(
        flow.next(IndexReply::Did),
        Ok(IndexAction::ReadIndex(Side::Client))
    ));
    match flow.next(IndexReply::Read(Some(index(vec![])))) {
        Ok(IndexAction::ReplaceFiles(Side::Client, files)) => assert_eq!(names(&files), vec!["a"]),
        other => panic!("{:?}", other),
    }
    assert!(matches!(
        flow.next(IndexReply::Did),
        Ok(IndexAction::ReadIndex(Side::Local))
    ));
    assert!(matches!(
        flow.next(IndexReply::Read(Some(index(vec![file("a", 1, 1, 0)])))),
        Ok(IndexAction::ReadIndex(Side::Client))
    ));
    match flow.next(IndexReply::Read(Some(index(vec![file("a", 1, 2, 0)])))) {
        Ok(IndexAction::ReplaceFiles(Side::Local, files)) => assert_eq!(names(&files), vec!["a"]),
        other => panic!("{:?}", other),
    }
    assert!(matches!(flow.next(IndexReply::Did), Ok(IndexAction::RequestBlocks)));
}

#[test]
fn an_index_that_is_not_there_stops_it() {
    let mut flow = IndexFlow::new(index(vec![]), true);
    flow.next(IndexReply::Did).unwrap();
    assert_eq!(flow.next(IndexReply::Read(None)).err(), Some(IndexFlowError::NoIndex));
    let mut flow = IndexFlow::new(index(vec![file("a", 2, 1, 5)]), true);
    flow.next(IndexReply::Did).unwrap();
    assert_eq!(
        flow.next(IndexReply::Read(Some(index(vec![file("a", 1, 1, 5)])))).err(),
        Some(IndexFlowError::Diff(DiffError::SameTime))
    );
}

fn shared(ids: Vec<Vec<u8>>) -> ClusterConfig {
    let mut folder = Folder::empty();
    folder.id = "f".to_string();
    folder.devices = ids
        .into_iter()
        .map(|id| {
            let mut d = Device::empty();
            d.id = id;
            d
        })
        .collect();
    let mut other = Folder::empty();
    other.id = "g".to_string();
    ClusterConfig { folders: vec![folder, other] }
}

#[test]
fn messages_lead_to_tasks() {
    let local = DeviceId::from_certificate(b"local");
    let client = DeviceId::from_certificate(b"client");
    let processor = BepProcessor::new(config(5));
    let state = BepState::new();
    let task = |m| processor.handle_complete_message(&state, m, &client, "grizol", "1.0");

    match task(CompleteMessage::Hello(Hello::empty())) {
        Task::Reply(events) => match &events[..] {
            [GrizolEvent::Message(CompleteMessage::Hello(h))] => {
                assert_eq!(h.device_name, "me");
                assert_eq!(h.client_name, "grizol");
                assert_eq!(h.client_version, "1.0");
            }
            other => panic!("{:?}", other),
        },
        other => panic!("{:?}", other),
    }
    let config = shared(vec![local.to_bytes(), client.to_bytes()]);
    assert_eq!(folders_shared_with(&config, &local), vec!["f"]);
    match task(CompleteMessage::ClusterConfig(config)) {
        Task::Share(Ok(statements)) => {
            let queries: Vec<Query> = statements.iter().map(|s| s.query).collect();
            assert_eq!(
                queries,
                vec![
                    Query::Begin,
                    Query::InsertFolder,
                    Query::InsertDevice,
                    Query::InsertDevice,
                    Query::InsertFolder,
                    Query::End,
                    Query::InitIndex,
                    Query::InitIndex
                ]
            );
        }
        other => panic!("{:?}", other),
    }
    assert!(matches!(
        task(CompleteMessage::ClusterConfig(shared(vec![vec![1]]))),
        Task::Share(Err(_))
    ));
    assert!(matches!(task(CompleteMessage::Index(index(vec![]))), Task::TakeIndex(_)));
    match task(CompleteMessage::IndexUpdate(IndexUpdate {
        folder: "u".to_string(),
        files: vec![],
    })) {
        Task::TakeIndex(flow) => assert_eq!(flow.received().folder, "u"),
        other => panic!("{:?}", other),
    }
    assert!(matches!(
        task(CompleteMessage::Response(Response { id: 1, data: vec![], code: 0 })),
        Task::Store(Err(_))
    ));
    for quiet in [
        CompleteMessage::Ping(Ping {}),
        CompleteMessage::Close(Close { reason: "".to_string() }),
        CompleteMessage::Request(request(1)),
    ] {
        match task(quiet) {
            Task::Reply(events) => assert!(events.is_empty()),
            other => panic!("{:?}", other),
        }
    }
    assert!(matches!(
        task(CompleteMessage::DownloadProgress(DownloadProgress::empty())),
        Task::Unsupported
    ));
}

#[test]
fn what_is_shared_is_told_before_the_indices() {
    let events = cluster_config_reply(shared(vec![]), vec![index(vec![])]);
    assert!(matches!(
        &events[..],
        [
            GrizolEvent::Message(CompleteMessage::ClusterConfig(_)),
            GrizolEvent::Message(CompleteMessage::Index(_))
        ]
    ));
}

#[test]
fn requests_wait_until_others_are_answered() {
    let mut processor = BepProcessor::new(config(1));
    let mut state = BepState::new();
    processor.request_blocks(&mut state, &vec![block(0), block(10)]);
    let first = processor.throttled_requests();
    assert_eq!(first.len(), 1);
    assert!(processor.throttled_requests().is_empty());
    processor.forget_request(&mut state, &first[0].id);
    assert!(state.get_request(&first[0].id).is_none());
    let second = processor.throttled_requests();
    assert_eq!(second.len(), 1);
    assert_ne!(first, second);
}
