//! The configuration of the client.

use vstd::prelude::*;
use crate::device_id;
use crate::device_id::{DeviceId, DeviceIdError};
use crate::text;

verus! {

/// Where files are kept.
#[derive(Debug, Clone, Copy, PartialEq, Eq, Structural)]
pub enum StorageStrategy {
    /// On this device only.
    Local,
    /// On remotes only.
    Remote,
    /// On this device and on remotes.
    LocalRemote,
}

/// The strategy that a number in the configuration stands for.
pub open spec fn strategy_of(number: i32) -> Option<StorageStrategy> {
    if number == 0 {
        Some(StorageStrategy::Local)
    } else if number == 1 {
        Some(StorageStrategy::Remote)
    } else if number == 2 {
        Some(StorageStrategy::LocalRemote)
    } else {
        None
    }
}

impl StorageStrategy {
    /// The strategy that a number in the configuration stands for.
    pub fn from_number(number: i32) -> (r: Option<StorageStrategy>)
        ensures
            r == strategy_of(number),
    {
        match number {
            0 => Some(StorageStrategy::Local),
            1 => Some(StorageStrategy::Remote),
            2 => Some(StorageStrategy::LocalRemote),
            _ => None,
        }
    }
}

/// The configuration as it was read; a text that is empty was not given.
#[derive(Debug)]
pub struct Config {
    pub name: String,
    pub address: String,
    /// Where the certificate of this device is.
    pub cert: String,
    /// Where the private key of this device is.
    pub key: String,
    pub base_dir: String,
    pub db_url: String,
    pub storage_strategy: i32,
    pub rclone_config: String,
    pub remote_base_dir: String,
    pub read_cache_dir: String,
    pub read_cache_size: String,
    pub mountpoint: String,
    pub fuse_refresh_rate_ms: Option<u64>,
    pub max_pending_requests: Option<u64>,
    pub max_total_pending_requests_size: String,
    pub trusted_peers: Vec<String>,
    pub fuse_inmem: bool,
}

/// Data that does not change while the client runs.
#[derive(Debug, Clone)]
pub struct GrizolConfig {
    pub local_device_id: DeviceId,
    pub name: String,
    /// No device occurs twice.
    pub trusted_peers: Vec<DeviceId>,
    pub local_base_dir: String,
    pub net_address: String,
    pub db_url: String,
    pub storage_strategy: StorageStrategy,
    pub rclone_config: Option<String>,
    pub remote_base_dir: String,
    pub read_cache_dir: String,
    pub read_cache_size: u64,
    pub mountpoint: Option<String>,
    pub fuse_refresh_rate_ms: u64,
    pub uid: u32,
    pub gid: u32,
    pub max_pending_requests: usize,
    pub max_total_pending_requests_size: usize,
    pub fuse_inmem: bool,
}

/// Why a configuration cannot be used.
#[derive(Debug, Clone, Copy, PartialEq, Eq, Structural)]
pub enum ConfigError {
    /// The size of the read cache is not a number of bytes.
    ReadCacheSize,
    /// There can be no such number of requests.
    MaxPendingRequests,
    /// The size of pending requests is not a number of bytes.
    MaxTotalPendingRequestsSize,
    /// There is no certificate of this device that could be read.
    Certificate,
    /// The trusted peer at this position has no valid id.
    TrustedPeer { position: usize, error: DeviceIdError },
}

/// The size where none is given: 1 GB.
pub const DEFAULT_SIZE: u64 = 1_000_000_000;

/// The number of requests where none is given.
pub const DEFAULT_MAX_PENDING_REQUESTS: usize = 10_000;

/// A text, or what stands for it where it is empty.
pub open spec fn or_default(given: Seq<char>, default: Seq<char>) -> Seq<char> {
    if given.len() == 0 {
        default
    } else {
        given
    }
}

/// A text, unless it is empty.
pub open spec fn if_given(given: Seq<char>) -> Option<Seq<char>> {
    if given.len() == 0 {
        None
    } else {
        Some(given)
    }
}

/// The digits in `s` before any exponent, read behind those that make `acc`, have a part
/// that makes the largest 64-bit number and is followed by a digit that would round it up.
pub open spec fn rounds_over(s: Seq<char>, acc: nat) -> bool
    decreases s.len(),
{
    if s.len() == 0 || s[0] == 'e' || s[0] == 'E' {
        false
    } else if '0' <= s[0] && s[0] <= '9' {
        if acc == u64::MAX && s[0] >= '5' {
            true
        } else {
            rounds_over(s.skip(1), acc * 10 + (s[0] as nat - '0' as nat) as nat)
        }
    } else {
        rounds_over(s.skip(1), acc)
    }
}

/// How many bytes `parse_size::parse_size` takes a text for; none where it reports an
/// error.
pub uninterp spec fn parsed_size(s: Seq<char>) -> Option<u64>;

/// Calls `parse_size::parse_size`, whose result, named by `parsed_size`, depends on
/// the text alone. A text that rounds the largest number up, or has more digits than
/// a 32-bit number can count, would overflow its counters.
#[verifier::external_body]
fn parse_size(s: &str) -> (r: Option<u64>)
    requires
        !rounds_over(s@, 0),
        s@.len() <= i32::MAX,
    ensures
        r == parsed_size(s@),
{
    parse_size::parse_size(s).ok()
}

/// How many bytes a text stands for.
pub open spec fn size_of_text(s: Seq<char>) -> Option<u64> {
    if rounds_over(s, 0) || s.len() > i32::MAX {
        None
    } else {
        parsed_size(s)
    }
}

proof fn lemma_not_rounds_over(s: Seq<char>, acc: nat)
    requires
        acc > u64::MAX,
    ensures
        !rounds_over(s, acc),
    decreases s.len(),
{
    if s.len() > 0 {
        if '0' <= s[0] && s[0] <= '9' {
            lemma_not_rounds_over(s.skip(1), acc * 10 + (s[0] as nat - '0' as nat) as nat);
        } else {
            lemma_not_rounds_over(s.skip(1), acc);
        }
    }
}

fn check_rounds_over(chars: &Vec<char>) -> (r: bool)
    ensures
        r == rounds_over(chars@, 0),
{
    let mut acc: u128 = 0;
    let mut i: usize = 0;
    assert(chars@.skip(0) =~= chars@);
    while i < chars.len()
        invariant
            i <= chars@.len(),
            acc <= u64::MAX,
            rounds_over(chars@, 0) == rounds_over(chars@.skip(i as int), acc as nat),
        decreases chars@.len() - i,
    {
        let c: char = chars[i];
        assert(chars@.skip(i as int)[0] == c);
        assert(chars@.skip(i as int).skip(1) =~= chars@.skip(i + 1));
        if c == 'e' || c == 'E' {
            return false;
        }
        if '0' <= c && c <= '9' {
            if acc == u64::MAX as u128 && c >= '5' {
                return true;
            }
            acc = acc * 10 + (c as u32 - '0' as u32) as u128;
            if acc > u64::MAX as u128 {
                proof {
                    lemma_not_rounds_over(chars@.skip(i + 1), acc as nat);
                }
                return false;
            }
        }
        i += 1;
    }
    false
}

/// How many bytes a text stands for.
pub fn read_size(s: &str) -> (r: Option<u64>)
    ensures
        r == size_of_text(s@),
{
    let chars = text::chars_of(s);
    if check_rounds_over(&chars) || chars.len() > i32::MAX as usize {
        return None;
    }
    parse_size(s)
}

/// A given text, or the default.
fn or_else(given: String, default: &str) -> (r: String)
    ensures
        r@ == or_default(given@, default@),
{
    if given.as_str().is_empty() {
        default.to_owned()
    } else {
        given
    }
}

fn when_given(given: String) -> (r: Option<String>)
    ensures
        crate::wire::view_option(r) == if_given(given@),
{
    if given.as_str().is_empty() {
        None
    } else {
        Some(given)
    }
}

/// The ids of the peers, up to the first that is not valid.
pub open spec fn peers_error(peers: Seq<Seq<char>>, i: int) -> Option<ConfigError>
    decreases peers.len() - i,
{
    if i < 0 || i >= peers.len() {
        None
    } else {
        match device_id::id_of_text(peers[i]) {
            Err(error) => Some(ConfigError::TrustedPeer { position: i as usize, error }),
            Ok(_) => peers_error(peers, i + 1),
        }
    }
}

/// Some of the texts stands for the id.
pub open spec fn names_peer(peers: Seq<Seq<char>>, id: Seq<u8>) -> bool {
    exists|i: int|
        0 <= i < peers.len() && device_id::id_of_text(#[trigger] peers[i]) == Ok::<
            Seq<u8>,
            DeviceIdError,
        >(id)
}

/// The device is in the list.
pub open spec fn lists_device(devices: Seq<DeviceId>, id: Seq<u8>) -> bool {
    exists|i: int| 0 <= i < devices.len() && (#[trigger] devices[i]).id@ == id
}

pub fn has_device(devices: &Vec<DeviceId>, device: &DeviceId) -> (r: bool)
    ensures
        r == lists_device(devices@, device.id@),
{
    let mut i: usize = 0;
    while i < devices.len()
        invariant
            i <= devices@.len(),
            forall|j: int| 0 <= j < i ==> (#[trigger] devices@[j]).id@ != device.id@,
        decreases devices@.len() - i,
    {
        if devices[i] == *device {
            return true;
        }
        i += 1;
    }
    false
}

/// No device occurs twice.
pub open spec fn devices_distinct(devices: Seq<DeviceId>) -> bool {
    forall|i: int, j: int|
        0 <= i < j < devices.len() ==> (#[trigger] devices[i]).id@ != (#[trigger] devices[j]).id@
}

fn read_peers(peers: &Vec<String>) -> (r: Result<Vec<DeviceId>, ConfigError>)
    ensures
        match peers_error(crate::views(peers@), 0) {
            Some(e) => r == Err::<Vec<DeviceId>, ConfigError>(e),
            None => r matches Ok(devices) && devices_distinct(devices@) && forall|id: Seq<u8>|
                lists_device(devices@, id) <==> names_peer(crate::views(peers@), id),
        },
{
    let ghost all = crate::views(peers@);
    let mut devices: Vec<DeviceId> = Vec::new();
    let mut i: usize = 0;
    while i < peers.len()
        invariant
            i <= peers@.len(),
            all == crate::views(peers@),
            peers_error(all, 0) == peers_error(all, i as int),
            devices_distinct(devices@),
            forall|id: Seq<u8>|
                lists_device(devices@, id) <==> names_peer(all.take(i as int), id),
        decreases peers@.len() - i,
    {
        assert(all[i as int] == peers@[i as int]@);
        match DeviceId::try_from_text(peers[i].as_str()) {
            Err(error) => {
                return Err(ConfigError::TrustedPeer { position: i, error });
            },
            Ok(device) => {
                let ghost before = devices@;
                if !has_device(&devices, &device) {
                    devices.push(device);
                }
                proof {
                    lemma_peers_step(all, i as int, before, devices@, device);
                }
            },
        }
        i += 1;
    }
    assert(all.take(all.len() as int) =~= all);
    Ok(devices)
}

proof fn lemma_peers_step(
    all: Seq<Seq<char>>,
    i: int,
    before: Seq<DeviceId>,
    after: Seq<DeviceId>,
    device: DeviceId,
)
    requires
        0 <= i < all.len(),
        device_id::id_of_text(all[i]) == Ok::<Seq<u8>, DeviceIdError>(device.id@),
        forall|id: Seq<u8>| lists_device(before, id) <==> names_peer(all.take(i), id),
        after == (if lists_device(before, device.id@) {
            before
        } else {
            before.push(device)
        }),
    ensures
        forall|id: Seq<u8>| lists_device(after, id) <==> names_peer(all.take(i + 1), id),
{
    assert forall|id: Seq<u8>| lists_device(after, id) <==> names_peer(all.take(i + 1), id) by {
        if lists_device(after, id) {
            let k = choose|k: int| 0 <= k < after.len() && (#[trigger] after[k]).id@ == id;
            if k < before.len() {
                assert(before[k].id@ == id);
                assert(lists_device(before, id));
                assert(names_peer(all.take(i), id));
                let m = choose|m: int|
                    0 <= m < i && device_id::id_of_text(#[trigger] all.take(i)[m]) == Ok::<
                        Seq<u8>,
                        DeviceIdError,
                    >(id);
                assert(all.take(i + 1)[m] == all.take(i)[m]);
            } else {
                assert(all.take(i + 1)[i] == all[i]);
            }
        }
        if names_peer(all.take(i + 1), id) {
            let m = choose|m: int|
                0 <= m < i + 1 && device_id::id_of_text(#[trigger] all.take(i + 1)[m]) == Ok::<
                    Seq<u8>,
                    DeviceIdError,
                >(id);
            if m < i {
                assert(all.take(i)[m] == all.take(i + 1)[m]);
                assert(lists_device(before, id));
                let k = choose|k: int| 0 <= k < before.len() && (#[trigger] before[k]).id@ == id;
                assert(after[k].id@ == id);
            } else {
                assert(id == device.id@);
                if lists_device(before, id) {
                    let k = choose|k: int|
                        0 <= k < before.len() && (#[trigger] before[k]).id@ == id;
                    assert(after[k].id@ == id);
                } else {
                    assert(after[before.len() as int].id@ == id);
                }
            }
        }
    }
}

/// A size that is given cannot be read.
pub open spec fn bad_size(given: Seq<char>, size: Option<u64>) -> bool {
    given.len() > 0 && size is None
}

/// Why the configuration cannot be used, where `read_cache_size` and `max_size` are
/// what the two sizes in it were read as, and `has_certificate` tells whether this device
/// has one.
pub open spec fn config_error(
    config: Config,
    read_cache_size: Option<u64>,
    max_size: Option<u64>,
    has_certificate: bool,
) -> Option<ConfigError> {
    if bad_size(config.read_cache_size@, read_cache_size) {
        Some(ConfigError::ReadCacheSize)
    } else if config.max_pending_requests is Some && config.max_pending_requests->0 > usize::MAX {
        Some(ConfigError::MaxPendingRequests)
    } else if bad_size(config.max_total_pending_requests_size@, max_size) || (
    config.max_total_pending_requests_size@.len() > 0 && max_size->0 > usize::MAX) {
        Some(ConfigError::MaxTotalPendingRequestsSize)
    } else if !has_certificate {
        Some(ConfigError::Certificate)
    } else {
        peers_error(crate::views(config.trusted_peers@), 0)
    }
}

/// `c` is the configuration with the defaults filled in.
pub open spec fn is_config(
    c: GrizolConfig,
    config: Config,
    read_cache_size: Option<u64>,
    max_size: Option<u64>,
    uid: u32,
    gid: u32,
) -> bool {
    &&& c.name@ == or_default(config.name@, "Grizol Server"@)
    &&& c.net_address@ == or_default(config.address@, "0.0.0.0:23456"@)
    &&& c.local_base_dir@ == or_default(config.base_dir@, "~/grizol/staging_area"@)
    &&& c.db_url@ == or_default(config.db_url@, "sqlite:~/.grizol/grizol.db"@)
    &&& c.storage_strategy == (match strategy_of(config.storage_strategy) {
        Some(s) => s,
        None => StorageStrategy::Remote,
    })
    &&& crate::wire::view_option(c.rclone_config) == if_given(config.rclone_config@)
    &&& c.remote_base_dir@ == or_default(config.remote_base_dir@, "grizol"@)
    &&& c.read_cache_dir@ == or_default(config.read_cache_dir@, "~/.grizol/read_cache"@)
    &&& c.read_cache_size == (if config.read_cache_size@.len() == 0 {
        DEFAULT_SIZE
    } else {
        read_cache_size->0
    })
    &&& crate::wire::view_option(c.mountpoint) == if_given(config.mountpoint@)
    &&& c.fuse_refresh_rate_ms == (match config.fuse_refresh_rate_ms {
        Some(ms) => ms,
        None => 0,
    })
    &&& c.uid == uid
    &&& c.gid == gid
    &&& c.max_pending_requests == (match config.max_pending_requests {
        Some(n) => n as int,
        None => DEFAULT_MAX_PENDING_REQUESTS as int,
    })
    &&& c.max_total_pending_requests_size == (if config.max_total_pending_requests_size@.len()
        == 0 {
        DEFAULT_SIZE
    } else {
        max_size->0
    })
    &&& devices_distinct(c.trusted_peers@)
    &&& forall|id: Seq<u8>|
        lists_device(c.trusted_peers@, id) <==> names_peer(
            crate::views(config.trusted_peers@),
            id,
        )
    &&& c.fuse_inmem == config.fuse_inmem
}

impl GrizolConfig {
    /// Fills in the defaults, where `pem` is the file with the certificate of this device
    /// and `uid` and `gid` are those of the process.
    pub fn from_config(config: Config, pem: &[u8], uid: u32, gid: u32) -> (r: Result<
        GrizolConfig,
        ConfigError,
    >)
        ensures
            ({
                let cache = size_of_text(config.read_cache_size@);
                let max = size_of_text(config.max_total_pending_requests_size@);
                let device = device_id::device_of_pem(pem@);
                match config_error(config, cache, max, device is Some) {
                    Some(e) => r == Err::<GrizolConfig, ConfigError>(e),
                    None => r matches Ok(c) && is_config(c, config, cache, max, uid, gid)
                        && device == Some(c.local_device_id.id@),
                }
            }),
    {
        let read_cache_size = read_size(config.read_cache_size.as_str());
        let max_size = read_size(config.max_total_pending_requests_size.as_str());
        GrizolConfig::from_parts(
            config,
            read_cache_size,
            max_size,
            DeviceId::from_pem(pem),
            uid,
            gid,
        )
    }

    /// Fills in the defaults, given what the two sizes and the id of this device were read
    /// as.
    pub fn from_parts(
        config: Config,
        read_cache_size: Option<u64>,
        max_size: Option<u64>,
        local_device_id: Option<DeviceId>,
        uid: u32,
        gid: u32,
    ) -> (r: Result<GrizolConfig, ConfigError>)
        ensures
            match config_error(config, read_cache_size, max_size, local_device_id is Some) {
                Some(e) => r == Err::<GrizolConfig, ConfigError>(e),
                None => r matches Ok(c) && is_config(
                    c,
                    config,
                    read_cache_size,
                    max_size,
                    uid,
                    gid,
                ) && local_device_id == Some(c.local_device_id),
            },
    {
        let read_cache_size: u64 = if config.read_cache_size.as_str().is_empty() {
            DEFAULT_SIZE
        } else {
            match read_cache_size {
                Some(size) => size,
                None => {
                    return Err(ConfigError::ReadCacheSize);
                },
            }
        };
        let max_pending_requests: usize = match config.max_pending_requests {
            Some(n) => {
                if n > usize::MAX as u64 {
                    return Err(ConfigError::MaxPendingRequests);
                }
                n as usize
            },
            None => DEFAULT_MAX_PENDING_REQUESTS,
        };
        let max_total_pending_requests_size: usize =
            if config.max_total_pending_requests_size.as_str().is_empty() {
            DEFAULT_SIZE as usize
        } else {
            match max_size {
                Some(size) => {
                    if size > usize::MAX as u64 {
                        return Err(ConfigError::MaxTotalPendingRequestsSize);
                    }
                    size as usize
                },
                None => {
                    return Err(ConfigError::MaxTotalPendingRequestsSize);
                },
            }
        };
        let local_device_id = match local_device_id {
            Some(device_id) => device_id,
            None => {
                return Err(ConfigError::Certificate);
            },
        };
        let trusted_peers = read_peers(&config.trusted_peers)?;
        Ok(
            GrizolConfig {
                local_device_id,
                name: or_else(config.name, "Grizol Server"),
                trusted_peers,
                local_base_dir: or_else(config.base_dir, "~/grizol/staging_area"),
                net_address: or_else(config.address, "0.0.0.0:23456"),
                db_url: or_else(config.db_url, "sqlite:~/.grizol/grizol.db"),
                storage_strategy: match StorageStrategy::from_number(config.storage_strategy) {
                    Some(s) => s,
                    None => StorageStrategy::Remote,
                },
                rclone_config: when_given(config.rclone_config),
                remote_base_dir: or_else(config.remote_base_dir, "grizol"),
                read_cache_dir: or_else(config.read_cache_dir, "~/.grizol/read_cache"),
                read_cache_size,
                mountpoint: when_given(config.mountpoint),
                fuse_refresh_rate_ms: match config.fuse_refresh_rate_ms {
                    Some(ms) => ms,
                    None => 0,
                },
                uid,
                gid,
                max_pending_requests,
                max_total_pending_requests_size,
                fuse_inmem: config.fuse_inmem,
            },
        )
    }

    /// Whether the device is one of the trusted peers.
    pub fn trusts(&self, device: &DeviceId) -> (r: bool)
        ensures
            r == lists_device(self.trusted_peers@, device.id@),
    {
        has_device(&self.trusted_peers, device)
    }
}

} // verus!
