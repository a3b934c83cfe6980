use grizol::config::{Config, GrizolConfig};
use grizol::fuse::moves::{
    Move, MoveAction, MoveFlow, MoveReply, ReadAction, ReadFlow, ReadReply,
};
use grizol::fuse::tree::{GrizolFSErr, GrizolFsMem};
use grizol::fuse::{
    base_dir, entry_id, file_type, is_file_in_current_dir, needs_refresh, top_dir_id, top_folder,
    FileKind, FsError, GrizolFS, ENTRIES_START, ROOT_ID,
};
use grizol::syncthing::{FileInfo, Folder};
use grizol::types::{GrizolFileInfo, GrizolFolder};
use grizol::wire::Message;

fn config() -> GrizolConfig {
    let config = Config {
        name: "me".to_string(),
        address: "".to_string(),
        cert: String::new(),
        key: String::new(),
        base_dir: "".to_string(),
        db_url: "".to_string(),
        storage_strategy: 1,
        rclone_config: "".to_string(),
        remote_base_dir: "".to_string(),
        read_cache_dir: "".to_string(),
        read_cache_size: "1000".to_string(),
        mountpoint: "".to_string(),
        fuse_refresh_rate_ms: None,
        max_pending_requests: None,
        max_total_pending_requests_size: "".to_string(),
        trusted_peers: vec![],
        fuse_inmem: true,
    };
    let pem = b"-----BEGIN CERTIFICATE-----\nbG9jYWw=\n-----END CERTIFICATE-----\n";
    GrizolConfig::from_config(config, pem, 500, 600).unwrap()
}

fn folder(id: &str, number: i64) -> GrizolFolder {
    let mut folder = Folder::empty();
    folder.id = id.to_string();
    GrizolFolder { folder, id: number }
}

fn file(folder: &str, name: &str, number: i64, kind: i32) -> GrizolFileInfo {
    let mut file_info = FileInfo::empty();
    file_info.name = name.to_string();
    file_info.file_type = kind;
    file_info.size = 10 * number;
    file_info.permissions = 0o644;
    file_info.modified_s = 7;
    file_info.modified_ns = 8;
    file_info.block_size = 4096;
    GrizolFileInfo { file_info, id: number, file_locations: vec![], folder: folder.to_string() }
}

fn ino(number: i64) -> u64 {
    entry_id(number)
}

fn example() -> GrizolFS {
    let mut fs = GrizolFS::new(&config());
    let rest = fs.refresh(
        vec![folder("f", 1), folder("g", 2)],
        vec![
            file("f", "d/x", 3, 0),
            file("f", "d/e/y", 4, 0),
            file("f", "d", 1, 1),
            file("f", "d/e", 2, 1),
            file("f", "top", 5, 0),
            file("g", "other", 6, 3),
        ],
    );
    assert_eq!(rest.map(|r| r.len()), Some(0));
    fs
}

#[test]
fn inodes_of_folders_and_files_differ() {
    assert_eq!(top_dir_id(0), 10);
    assert_eq!(top_dir_id(5), 15);
    assert_eq!(entry_id(0), ENTRIES_START);
    assert_eq!(entry_id(5), (1 << 32) + 5);
}

#[test]
fn numbers_stand_for_kinds_of_files() {
    assert_eq!(file_type(0), Some(FileKind::RegularFile));
    assert_eq!(file_type(1), Some(FileKind::Directory));
    for n in 2..5 {
        assert_eq!(file_type(n), Some(FileKind::Symlink));
    }
    assert_eq!(file_type(5), None);
    assert_eq!(file_type(-1), None);
}

#[test]
fn the_root_is_a_directory() {
    let fs = GrizolFS::new(&config());
    let attr = fs.getattr_mem(ROOT_ID).unwrap();
    assert_eq!(attr.ino, 1);
    assert_eq!(attr.kind, FileKind::Directory);
    assert_eq!(attr.perm, 0o755);
    assert_eq!(attr.blksize, 512);
    assert_eq!((attr.uid, attr.gid), (500, 600));
    assert_eq!(fs.getattr_db(ROOT_ID), Ok(attr));
}

#[test]
fn the_tree_and_the_lists_agree() {
    let fs = example();
    for number in 0..20 {
        assert_eq!(fs.getattr_mem(number), fs.getattr_db(number));
        assert_eq!(fs.getattr_mem(ENTRIES_START + number), fs.getattr_db(ENTRIES_START + number));
    }
    let attr = fs.getattr_mem(ino(3)).unwrap();
    assert_eq!(attr.ino, ino(3));
    assert_eq!(attr.size, 30);
    assert_eq!(attr.kind, FileKind::RegularFile);
    assert_eq!(attr.perm, 0o644);
    assert_eq!((attr.modified_s, attr.modified_ns), (7, 8));
    assert_eq!(attr.blksize, 4096);
    assert_eq!(fs.getattr_mem(top_dir_id(2)).unwrap().blksize, 1024);
    assert_eq!(fs.getattr_mem(top_dir_id(3)), Err(FsError::NoEntry));
    assert_eq!(fs.getattr_db(ino(9)), Err(FsError::NoEntry));
}

#[test]
fn names_are_looked_up_in_directories() {
    let fs = example();
    for (parent, name, expected) in [
        (ROOT_ID, "f", Ok(top_dir_id(1))),
        (ROOT_ID, "h", Err(FsError::NoEntry)),
        (top_dir_id(1), "d", Ok(ino(1))),
        (top_dir_id(1), "x", Err(FsError::NoEntry)),
        (ino(1), "x", Ok(ino(3))),
        (ino(1), "e", Ok(ino(2))),
        (ino(2), "y", Ok(ino(4))),
    ] {
        assert_eq!(fs.lookup_mem(parent, name).map(|a| a.ino), expected);
        assert_eq!(fs.lookup_db(parent, name).map(|a| a.ino), expected);
    }
    assert_eq!(fs.lookup_mem(ino(77), "x"), Err(FsError::NoEntry));
    assert_eq!(fs.lookup_db(ino(77), "x"), Err(FsError::Io));
}

#[test]
fn directories_are_listed_from_an_offset() {
    let fs = example();
    let names = |r: Result<Vec<grizol::fuse::DirEntry>, FsError>| {
        r.map(|v| v.into_iter().map(|e| (e.offset, e.name, e.ino)).collect::<Vec<_>>())
    };
    for listing in [fs.readdir_mem(ROOT_ID, 0), fs.readdir_db(ROOT_ID, 0)] {
        assert_eq!(
            names(listing),
            Ok(vec![
                (1, "f".to_string(), top_dir_id(1)),
                (2, "g".to_string(), top_dir_id(2))
            ])
        );
    }
    assert_eq!(names(fs.readdir_db(ROOT_ID, 1)), Ok(vec![(2, "g".to_string(), top_dir_id(2))]));
    assert_eq!(names(fs.readdir_mem(ROOT_ID, 2)), Ok(vec![]));
    assert_eq!(names(fs.readdir_db(ROOT_ID, -1)), Ok(vec![]));
    let mut in_tree: Vec<String> =
        fs.readdir_mem(ino(1), 0).unwrap().into_iter().map(|e| e.name).collect();
    in_tree.sort();
    assert_eq!(in_tree, vec!["e", "x"]);
    assert_eq!(
        names(fs.readdir_db(ino(1), 0)),
        Ok(vec![(1, "x".to_string(), ino(3)), (2, "e".to_string(), ino(2))])
    );
    assert_eq!(fs.readdir_db(ino(1), 0).unwrap()[1].kind, Some(FileKind::Directory));
    assert_eq!(fs.readdir_mem(ino(50), 0), Err(FsError::NoEntry));
    assert_eq!(fs.readdir_db(ino(50), 0), Err(FsError::NoEntry));
}

#[test]
fn folders_and_directories_of_inodes_are_found() {
    let folders = vec![folder("f", 1)];
    let files = vec![file("f", "d", 1, 1)];
    assert_eq!(top_folder(top_dir_id(1), &folders, &files), Some("f".to_string()));
    assert_eq!(top_folder(ino(1), &folders, &files), Some("f".to_string()));
    assert_eq!(top_folder(ino(2), &folders, &files), None);
    assert_eq!(base_dir(top_dir_id(1), &files), Some("".to_string()));
    assert_eq!(base_dir(ino(1), &files), Some("d".to_string()));
    assert_eq!(base_dir(ino(2), &files), None);
    assert!(is_file_in_current_dir("", &files[0]));
    assert!(is_file_in_current_dir("d", &file("f", "d/x", 2, 0)));
    assert!(!is_file_in_current_dir("d", &file("f", "d/e/x", 2, 0)));
    assert!(!is_file_in_current_dir("d", &file("f", "dx", 2, 0)));
}

#[test]
fn files_without_a_directory_are_given_back() {
    let mut fs = GrizolFS::new(&config());
    let rest = fs.refresh(vec![folder("f", 1)], vec![file("f", "a/b", 1, 0), file("f", "c", 2, 0)]);
    assert_eq!(rest.unwrap().iter().map(|f| f.id).collect::<Vec<i64>>(), vec![1]);
    assert_eq!(fs.getattr_mem(ino(1)), Err(FsError::NoEntry));
    assert!(fs.getattr_mem(ino(2)).is_ok());
}

#[test]
fn what_has_no_inode_is_refused() {
    let mut fs = example();
    assert!(fs.refresh(vec![folder("f", 1 << 32)], vec![]).is_none());
    assert!(fs.refresh(vec![folder("f", -1)], vec![]).is_none());
    assert!(fs.refresh(vec![], vec![file("f", "a", -1, 0)]).is_none());
    assert!(fs.getattr_mem(ino(3)).is_ok());
}

#[test]
fn a_file_of_an_unknown_kind_has_no_attributes() {
    let mut fs = GrizolFS::new(&config());
    fs.refresh(vec![folder("f", 1)], vec![file("f", "a", 1, 9)]).unwrap();
    assert_eq!(fs.getattr_mem(ino(1)), Err(FsError::UnknownType));
    assert_eq!(fs.readdir_mem(top_dir_id(1), 0).unwrap()[0].kind, None);
}

#[test]
fn only_files_that_fit_are_read() {
    let mut fs = GrizolFS::new(&config());
    let mut negative = file("f", "n", 3, 0);
    negative.file_info.size = -1;
    fs.refresh(
        vec![folder("f", 1)],
        vec![file("f", "a", 100, 0), file("f", "b", 101, 0), negative],
    )
    .unwrap();
    assert_eq!(fs.read_mem(ino(100)).unwrap().file_info.name, "a");
    assert_eq!(fs.read_mem(ino(101)).err(), Some(FsError::TooBig));
    assert_eq!(fs.read_mem(ino(3)).err(), Some(FsError::BadSize));
    assert_eq!(fs.read_mem(ino(4)).err(), Some(FsError::NoEntry));
    assert_eq!(fs.read_mem(top_dir_id(1)).err(), Some(FsError::IsDirectory));
}

#[test]
fn a_directory_is_moved_with_all_that_is_in_it() {
    let fs = example();
    let moves = fs.rename_mem(top_dir_id(1), "d", top_dir_id(1), "new").unwrap();
    let mut pairs: Vec<(String, String)> =
        moves.iter().map(|m| (m.orig_file_path.clone(), m.dest_file_path.clone())).collect();
    assert_eq!(pairs.last().unwrap(), &("d".to_string(), "new".to_string()));
    let place = |name: &str| pairs.iter().position(|p| p.0 == name).unwrap();
    assert!(place("d/e/y") < place("d/e"));
    pairs.sort();
    assert_eq!(
        pairs,
        vec![
            ("d".to_string(), "new".to_string()),
            ("d/e".to_string(), "new/e".to_string()),
            ("d/e/y".to_string(), "new/e/y".to_string()),
            ("d/x".to_string(), "new/x".to_string())
        ]
    );
    let moves = fs.rename_mem(ino(1), "x", ino(2), "z").unwrap();
    assert_eq!(
        moves,
        vec![Move {
            orig_folder: "f".to_string(),
            orig_file_path: "d/x".to_string(),
            dest_folder: "f".to_string(),
            dest_file_path: "d/e/z".to_string()
        }]
    );
    assert_eq!(fs.rename_mem(ROOT_ID, "f", ROOT_ID, "h"), Err(FsError::NotPermitted));
    assert_eq!(fs.rename_mem(ino(1), "q", ino(2), "z"), Err(FsError::NoEntry));
    assert_eq!(fs.rename_mem(ino(9), "x", ino(2), "z"), Err(FsError::Io));
    assert_eq!(fs.rename_mem(ino(1), "x", ino(9), "z"), Err(FsError::Io));
}

#[test]
fn a_file_is_moved_between_folders() {
    let fs = example();
    assert_eq!(
        fs.rename_db(ino(1), "x", top_dir_id(2), "z"),
        Ok(Move {
            orig_folder: "f".to_string(),
            orig_file_path: "d/x".to_string(),
            dest_folder: "g".to_string(),
            dest_file_path: "z".to_string()
        })
    );
    assert_eq!(
        fs.rename_db(top_dir_id(1), "top", ino(2), "z").unwrap().dest_file_path,
        "d/e/z"
    );
    for (orig, name, dest) in [
        (ROOT_ID, "f", top_dir_id(1)),
        (top_dir_id(1), "x", top_dir_id(2)),
        (ino(9), "x", top_dir_id(2)),
        (ino(1), "x", ino(9)),
        (ino(1), "x", ROOT_ID),
    ] {
        assert_eq!(fs.rename_db(orig, name, dest, "z"), Err(FsError::NoEntry));
    }
}

fn a_move() -> Move {
    Move {
        orig_folder: "f".to_string(),
        orig_file_path: "a".to_string(),
        dest_folder: "g".to_string(),
        dest_file_path: "b".to_string(),
    }
}

#[test]
fn a_move_is_carried_out_step_by_step() {
    let mut flow = MoveFlow::new(&a_move(), false);
    let locations = vec![("gcs".to_string(), "gcs:x".to_string())];
    assert!(matches!(
        flow.next(MoveReply::File(Some(file("f", "a", 1, 0).file_info))),
        MoveAction::Copy
    ));
    match flow.next(MoveReply::Copied(Ok(locations.clone()))) {
        MoveAction::Insert(f) => assert_eq!((f.name.as_str(), f.size), ("b", 10)),
        other => panic!("{:?}", other),
    }
    match flow.next(MoveReply::Did) {
        MoveAction::WriteLocations(l) => assert_eq!(l, locations),
        other => panic!("{:?}", other),
    }
    assert!(matches!(flow.next(MoveReply::Did), MoveAction::Delete));
    assert!(matches!(flow.next(MoveReply::Did), MoveAction::Remove));
    assert!(matches!(flow.next(MoveReply::Removed(Ok(()))), MoveAction::Finish));
}

#[test]
fn a_move_that_cannot_be_made_ends() {
    let mut flow = MoveFlow::new(&a_move(), true);
    assert!(matches!(flow.next(MoveReply::File(None)), MoveAction::Fail(_)));

    let mut flow = MoveFlow::new(&a_move(), true);
    flow.next(MoveReply::File(Some(file("f", "a", 1, 0).file_info)));
    match flow.next(MoveReply::Copied(Err("full".to_string()))) {
        MoveAction::GiveUp(m) => assert_eq!(m, "full"),
        other => panic!("{:?}", other),
    }
    let mut flow = MoveFlow::new(&a_move(), false);
    flow.next(MoveReply::File(Some(file("f", "a", 1, 0).file_info)));
    assert!(matches!(
        flow.next(MoveReply::Copied(Err("full".to_string()))),
        MoveAction::Insert(_)
    ));
    match flow.next(MoveReply::Did) {
        MoveAction::Fail(m) => assert_eq!(m, "full"),
        other => panic!("{:?}", other),
    }
}

#[test]
fn a_file_is_read_from_the_cache() {
    let mut flow = ReadFlow::new(&file("f", "a", 1, 0));
    assert!(matches!(flow.next(ReadReply::InCache(false)), ReadAction::Free(10)));
    match flow.next(ReadReply::Freed(vec![("f".to_string(), "z".to_string())])) {
        ReadAction::Remove(files) => assert_eq!(files.len(), 1),
        other => panic!("{:?}", other),
    }
    assert!(matches!(flow.next(ReadReply::Did(Ok(()))), ReadAction::Copy));
    assert!(matches!(flow.next(ReadReply::Did(Ok(()))), ReadAction::Touch));
    assert!(matches!(flow.next(ReadReply::Did(Ok(()))), ReadAction::Read));
    match flow.next(ReadReply::Data(Ok(vec![1]))) {
        ReadAction::Reply(data) => assert_eq!(data, vec![1]),
        other => panic!("{:?}", other),
    }
    let mut flow = ReadFlow::new(&file("f", "a", 1, 0));
    assert!(matches!(flow.next(ReadReply::InCache(true)), ReadAction::Touch));
    match flow.next(ReadReply::Did(Err("gone".to_string()))) {
        ReadAction::Fail(m) => assert_eq!(m, "gone"),
        other => panic!("{:?}", other),
    }
}

#[test]
fn a_node_takes_the_place_of_another_with_its_path() {
    let mut tree = GrizolFsMem::new();
    tree.insert_folder(folder("f", 1));
    assert!(tree.insert_file(file("f", "d", 1, 1)).is_ok());
    assert!(tree.insert_file(file("f", "d/x", 2, 0)).is_ok());
    assert_eq!(tree.len(), 4);
    assert_eq!(tree.folder_from_ino(ino(2)), Some("f".to_string()));
    assert_eq!(tree.folder_from_ino(top_dir_id(1)), Some("".to_string()));
    assert_eq!(tree.folder_from_ino(ROOT_ID), None);
    let top = tree.find_id(top_dir_id(1)).unwrap();
    let d = tree.find_child(top, "d").unwrap();
    assert!(tree.is_child_of(d, top));
    let walk: Vec<u64> =
        tree.traverse_post(top).into_iter().map(|i| tree.node_at(i).id).collect();
    assert_eq!(walk, vec![ino(2), ino(1), top_dir_id(1)]);
    assert!(tree.insert_file(file("f", "d", 3, 1)).is_ok());
    assert_eq!(tree.len(), 3);
    match tree.insert_file(file("f", "q/x", 4, 0)) {
        Err(GrizolFSErr::NoParent(f)) => assert_eq!(f.id, 4),
        Ok(_) => panic!("it has no parent"),
    }
}

#[test]
fn what_was_read_long_ago_is_read_again() {
    assert!(needs_refresh(None, 10));
    assert!(!needs_refresh(Some(9), 10));
    assert!(needs_refresh(Some(10), 10));
    assert!(needs_refresh(Some(0), 0));
}

#[test]
fn a_tree_is_filled_again() {
    let mut fs = example();
    let rest = fs.refresh(
        vec![folder("f", 1), folder("g", 2), folder("h", 3)],
        vec![
            file("f", "d/e", 2, 1),
            file("f", "d/e/z", 7, 0),
            file("f", "d", 1, 1),
            file("f", "top", 8, 0),
            file("h", "new", 9, 0),
            file("f", "lost/x", 10, 0),
        ],
    );
    let rest: Vec<String> = rest.unwrap().into_iter().map(|f| f.file_info.name).collect();
    assert_eq!(rest, vec!["lost/x"]);
    for number in [1, 2, 7, 8, 9] {
        assert_eq!(fs.getattr_mem(ino(number)).unwrap().ino, ino(number));
    }
    for number in 0..10 {
        assert_eq!(fs.getattr_mem(number + 5), fs.getattr_db(number + 5));
        assert_eq!(fs.getattr_mem(ENTRIES_START + number), fs.getattr_db(ENTRIES_START + number));
    }
    assert_eq!(fs.getattr_mem(ino(3)), Err(FsError::NoEntry));
    assert_eq!(fs.getattr_mem(ino(6)), Err(FsError::NoEntry));
    fs.refresh(vec![folder("f", 1)], vec![]).unwrap();
    assert!(fs.getattr_mem(ino(9)).is_ok());
    assert_eq!(fs.getattr_db(ino(9)), Err(FsError::NoEntry));
    assert_eq!(fs.getattr_mem(ino(8)), Err(FsError::NoEntry));
}
