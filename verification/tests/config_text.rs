use grizol::config::{Config, GrizolConfig, StorageStrategy};
use grizol::config_text::{config_of_bytes, describe_file, opens_few, parse_config};
use grizol::wire::{self, Message};

const CERT: &[u8] = b"-----BEGIN CERTIFICATE-----\nY2VydA==\n-----END CERTIFICATE-----\n";

const TEXT: &str = r#"
# Who this is.
name: "me"
address: "127.0.0.1:1234"
cert: "/etc/cert.pem"
key: "/etc/key.pem"
base_dir: "/data" db_url: "sqlite:/db"
storage_strategy: LOCAL_REMOTE
rclone_config: "/rclone.conf"
remote_base_dir: "bucket"
read_cache_dir: "/cache"
read_cache_size: "2 GB"
mountpoint: "/mnt"
fuse_refresh_rate_ms: 0
max_pending_requests: 17
max_total_pending_requests_size: "1 MB"
trusted_peers: "A"
trusted_peers: ["B", "C\n"]
fuse_inmem: true
"#;

#[test]
fn a_configuration_is_read_from_its_text() {
    let c = parse_config(TEXT).unwrap();
    assert_eq!(c.name, "me");
    assert_eq!(c.address, "127.0.0.1:1234");
    assert_eq!(c.cert, "/etc/cert.pem");
    assert_eq!(c.key, "/etc/key.pem");
    assert_eq!(c.base_dir, "/data");
    assert_eq!(c.db_url, "sqlite:/db");
    assert_eq!(c.storage_strategy, 2);
    assert_eq!(c.rclone_config, "/rclone.conf");
    assert_eq!(c.remote_base_dir, "bucket");
    assert_eq!(c.read_cache_dir, "/cache");
    assert_eq!(c.read_cache_size, "2 GB");
    assert_eq!(c.mountpoint, "/mnt");
    assert_eq!(c.fuse_refresh_rate_ms, Some(0));
    assert_eq!(c.max_pending_requests, Some(17));
    assert_eq!(c.max_total_pending_requests_size, "1 MB");
    assert_eq!(c.trusted_peers, vec!["A", "B", "C\n"]);
    assert!(c.fuse_inmem);
}

#[test]
fn what_the_text_leaves_out_is_empty() {
    let c = parse_config("").unwrap();
    assert_eq!(c.name, "");
    assert_eq!(c.cert, "");
    assert_eq!(c.storage_strategy, 0);
    assert_eq!(c.fuse_refresh_rate_ms, None);
    assert_eq!(c.max_pending_requests, None);
    assert!(c.trusted_peers.is_empty());
    assert!(!c.fuse_inmem);
    let c = parse_config("storage_strategy: REMOTE").unwrap();
    let c = GrizolConfig::from_config(c, CERT, 1, 2).unwrap();
    assert_eq!(c.storage_strategy, StorageStrategy::Remote);
    assert_eq!(c.name, "Grizol Server");
}

#[test]
fn a_text_that_is_no_configuration_is_refused() {
    assert!(parse_config("nome: \"me\"").is_none());
    assert!(parse_config("name: 3").is_none());
    assert!(parse_config("name: \"a\" name: \"b\"").is_none());
    assert!(parse_config("max_pending_requests: -1").is_none());
    assert!(parse_config("max_pending_requests: 18446744073709551616").is_none());
    assert!(parse_config("storage_strategy: NOWHERE").is_none());
    assert!(parse_config("name: \"me").is_none());
}

#[test]
fn a_text_opens_few_messages() {
    let opened = |n: usize| {
        "[type.googleapis.com/grizol.Config] {".repeat(n) + &"}".repeat(n)
    };
    assert!(opens_few(&opened(200)));
    assert!(!opens_few(&opened(201)));
    assert!(!opens_few(&"<".repeat(201)));
    assert!(parse_config(&opened(200)).is_none());
    assert!(parse_config(&opened(201)).is_none());
    assert!(parse_config(&format!("name: \"{}\"", "{".repeat(200))).is_some());
    assert!(parse_config(&format!("name: \"{}\"", "{".repeat(201))).is_none());
}

#[test]
fn an_encoded_configuration_is_read_back() {
    let c = parse_config(TEXT).unwrap();
    let d = config_of_bytes(&wire::encode(&c)).unwrap();
    assert_eq!(format!("{:?}", c), format!("{:?}", d));
    assert!(config_of_bytes(&[0x0a, 0x05, b'm']).is_none());
    let empty = config_of_bytes(&[]).unwrap();
    assert_eq!(format!("{:?}", empty), format!("{:?}", Config::empty()));
}

#[test]
fn the_description_names_every_field() {
    let bytes = describe_file();
    let pool = prost_reflect::DescriptorPool::decode(bytes.as_slice()).unwrap();
    let message = pool.get_message_by_name("grizol.Config").unwrap();
    let described: Vec<(String, u32)> =
        message.fields().map(|f| (f.name().to_string(), f.number())).collect();
    let mut expected: Vec<(String, u32)> = [
        "name",
        "address",
        "cert",
        "key",
        "base_dir",
        "db_url",
        "rclone_config",
        "remote_base_dir",
        "read_cache_dir",
        "read_cache_size",
        "mountpoint",
        "max_total_pending_requests_size",
    ]
    .iter()
    .zip(1..)
    .map(|(name, number)| (name.to_string(), number))
    .collect();
    let others =
        ["trusted_peers", "fuse_inmem", "fuse_refresh_rate_ms", "max_pending_requests", "storage_strategy"];
    expected.extend(others.iter().zip(20..).map(|(name, number)| (name.to_string(), number)));
    assert_eq!(described, expected);
    let strategies = pool.get_enum_by_name("grizol.StorageStrategy").unwrap();
    let values: Vec<(String, i32)> =
        strategies.values().map(|v| (v.name().to_string(), v.number())).collect();
    assert_eq!(
        values,
        vec![
            ("LOCAL".to_string(), 0),
            ("REMOTE".to_string(), 1),
            ("LOCAL_REMOTE".to_string(), 2)
        ]
    );
}
