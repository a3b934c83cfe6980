use grizol::config::{Config, GrizolConfig};
use grizol::file_writer::{ChunkAction, FileWriterError};
use grizol::storage::{
    after_cache_read, digest_matches, file_offset, is_requested_data, parse_storage_backends,
    storage_backends_command, CacheRead, StorageManager, StoreBlock,
};
use grizol::syncthing::Request;

fn manager(output: &str, rclone_config: &str) -> StorageManager {
    let config = Config {
        name: "me".to_string(),
        address: "".to_string(),
        cert: String::new(),
        key: String::new(),
        base_dir: "/data".to_string(),
        db_url: "".to_string(),
        storage_strategy: 1,
        rclone_config: rclone_config.to_string(),
        remote_base_dir: "bucket".to_string(),
        read_cache_dir: "/cache".to_string(),
        read_cache_size: "".to_string(),
        mountpoint: "".to_string(),
        fuse_refresh_rate_ms: None,
        max_pending_requests: None,
        max_total_pending_requests_size: "".to_string(),
        trusted_peers: vec![],
        fuse_inmem: false,
    };
    let pem = b"-----BEGIN CERTIFICATE-----\nY2VydA==\n-----END CERTIFICATE-----\n";
    let config = GrizolConfig::from_config(config, pem, 0, 0).unwrap();
    StorageManager::new(config, output)
}

fn request(offset: i64) -> Request {
    Request {
        id: 0,
        folder: "test_dir".to_string(),
        name: "a_file".to_string(),
        offset,
        size: 4,
        hash: vec![],
        from_temporary: false,
    }
}

#[test]
fn backends_are_the_names_in_brackets() {
    let output = "\u{a0}[gcs]\ntype = gcs\n\n  [s3 one] \r\nkey = [x] y\n[]\n[a]b]";
    assert_eq!(parse_storage_backends(output), vec!["gcs", "s3 one", "", "a]b"]);
    assert_eq!(parse_storage_backends(""), Vec::<String>::new());
    for c in ['\t', '\u{b}', '\u{c}', '\u{85}', '\u{1680}', '\u{2000}', '\u{200a}', '\u{2028}',
        '\u{2029}', '\u{202f}', '\u{205f}', '\u{3000}']
    {
        assert_eq!(parse_storage_backends(&format!("{c}[x]{c}")), vec!["x"]);
    }
    for c in ['\u{8}', '\u{1c}', '\u{200b}', '\u{180e}', '\u{feff}'] {
        assert_eq!(parse_storage_backends(&format!("{c}[x]")), Vec::<String>::new());
    }
}

#[test]
fn commands_name_the_configuration() {
    assert_eq!(
        storage_backends_command(&Some("/rc".to_string())),
        vec!["rclone", "--config=/rc", "config", "show"]
    );
}

#[test]
fn a_file_is_copied_to_every_backend() {
    let m = manager("[a]\n[b]\n", "/rc");
    let ops = m.cp_local_to_remote("f", "n");
    assert_eq!(ops.len(), 2);
    assert_eq!(
        ops[1].command,
        vec!["rclone", "--config=/rc", "copyto", "/data/f/n", "b:bucket/f/n"]
    );
    assert_eq!(ops[1].storage_backend, "b");
    assert_eq!(ops[1].location, "b:bucket/f/n");
    assert_eq!(
        m.cp("f", "n", "g", "o")[0].command,
        vec!["rclone", "--config=/rc", "copyto", "a:bucket/f/n", "a:bucket/g/o"]
    );
    assert_eq!(
        m.rm("f", "n")[0].command,
        vec!["rclone", "--config=/rc", "delete", "a:bucket/f/n"]
    );
}

#[test]
fn the_read_cache_is_filled_from_one_backend() {
    let m = manager("", "");
    assert_eq!(
        m.cp_remote_to_read_cache("f", "n"),
        vec!["rclone", "", "copyto", "gcs:bucket/f/n", "/cache/f/n"]
    );
    assert_eq!(m.local_path("f", "n"), "/data/f/n");
    assert_eq!(m.read_cache_path("f", "n"), "/cache/f/n");
    assert_eq!(
        m.free_read_cache(&vec![("f".to_string(), "x".to_string())]),
        vec!["/cache/f/x"]
    );
}

#[test]
fn a_block_is_stored_at_its_offset() {
    let m = manager("", "");
    assert_eq!(
        m.store_block(&request(12), 20),
        Some(StoreBlock {
            abs_path: "/data/test_dir/a_file".to_string(),
            file_size: 20,
            offset: 12
        })
    );
    assert_eq!(m.store_block(&request(-1), 20), None);
    assert_eq!(file_offset(5), Some(5));
    assert_eq!(file_offset(-5), None);
}

#[test]
fn blocks_are_written_and_put_together() {
    let mut m = manager("", "");
    match m.begin_block(&request(0), 4, 8, 4) {
        Ok(ChunkAction::Write { chunk_pos, .. }) => assert_eq!(chunk_pos, 0),
        other => panic!("{:?}", other),
    }
    assert_eq!(
        m.conclude_block_storage(&request(0), 8, 4).err(),
        Some(FileWriterError::Writing)
    );
    assert_eq!(m.end_block(&request(0), 0, true), Ok(()));
    match m.begin_block(&request(4), 4, 8, 4) {
        Ok(ChunkAction::Write { chunk_pos, .. }) => {
            assert_eq!(chunk_pos, 1);
            assert_eq!(m.end_block(&request(4), 1, true), Ok(()));
        }
        other => panic!("{:?}", other),
    }
    let (path, steps) = m.conclude_block_storage(&request(0), 8, 4).unwrap();
    assert_eq!(path, "/data/test_dir/a_file");
    assert_eq!(steps.unwrap().len(), 2);
    assert_eq!(m.begin_block(&request(0), 4, 8, 4), Err(FileWriterError::Consolidating));
    m.end_conclusion(&request(0));
    assert!(m.begin_block(&request(0), 4, 8, 4).is_ok());
}

#[test]
fn blocks_from_before_a_restart_are_put_together() {
    let mut m = manager("", "");
    let mut written: Vec<String> = vec![];
    for (i, offset) in [0, 4].into_iter().enumerate() {
        match m.begin_block(&request(offset), 4, 8, 4) {
            Ok(ChunkAction::Write { chunk_pos, path }) => {
                assert_eq!(chunk_pos, i);
                assert!(path.starts_with("/data/test_dir/a_file.part_"));
                written.push(path);
            }
            other => panic!("{:?}", other),
        }
        assert_eq!(m.end_block(&request(offset), i, true), Ok(()));
    }
    let mut m = manager("", "");
    let (path, steps) = m.conclude_block_storage(&request(0), 8, 4).unwrap();
    assert_eq!(path, "/data/test_dir/a_file");
    let read: Vec<String> = steps.unwrap().into_iter().map(|s| s.chunk_path).collect();
    assert_eq!(read, written);
}

#[test]
fn data_is_held_against_its_digest() {
    let mut r = request(0);
    assert!(!is_requested_data(b"abc", &r));
    r.hash = vec![
        0xba, 0x78, 0x16, 0xbf, 0x8f, 0x01, 0xcf, 0xea, 0x41, 0x41, 0x40, 0xde, 0x5d, 0xae, 0x22,
        0x23, 0xb0, 0x03, 0x61, 0xa3, 0x96, 0x17, 0x7a, 0x9c, 0xb4, 0x10, 0xff, 0x61, 0xf2, 0x00,
        0x15, 0xad,
    ];
    assert!(is_requested_data(b"abc", &r));
    assert!(!is_requested_data(b"abd", &r));
    assert!(digest_matches(&[3; 32], &vec![3; 32]));
    assert!(!digest_matches(&[3; 32], &vec![3; 31]));
}

#[test]
fn reading_stops_when_enough_has_come() {
    assert_eq!(after_cache_read(10, 0, 4), CacheRead::SkipAndRead(4));
    assert_eq!(after_cache_read(10, 6, 4), CacheRead::SkipAndStop(4));
    assert_eq!(after_cache_read(10, 6, 0), CacheRead::Stop);
}
