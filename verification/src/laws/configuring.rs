//! What the configuration makes of what is given.

use vstd::prelude::*;
use crate::config;
use crate::config::{Config, ConfigError, GrizolConfig, StorageStrategy};
use crate::device_id;
use crate::device_id::DeviceIdError;
use crate::pem;
use crate::pem::PemItemView;

verus! {

/// The numbers of the ways to store files.
pub proof fn law_strategies(number: i32)
    ensures
        config::strategy_of(0) == Some(StorageStrategy::Local),
        config::strategy_of(1) == Some(StorageStrategy::Remote),
        config::strategy_of(2) == Some(StorageStrategy::LocalRemote),
        number < 0 || number > 2 ==> config::strategy_of(number) is None,
{
}

/// What is given is taken as it is; what is not given has its default.
pub proof fn law_given_or_default(
    c: GrizolConfig,
    given: Config,
    read_cache_size: Option<u64>,
    max_size: Option<u64>,
    uid: u32,
    gid: u32,
)
    requires
        config::is_config(c, given, read_cache_size, max_size, uid, gid),
    ensures
        given.name@.len() > 0 ==> c.name@ == given.name@,
        given.name@.len() == 0 ==> c.name@ == "Grizol Server"@,
        given.address@.len() > 0 ==> c.net_address@ == given.address@,
        given.address@.len() == 0 ==> c.net_address@ == "0.0.0.0:23456"@,
        given.base_dir@.len() > 0 ==> c.local_base_dir@ == given.base_dir@,
        given.base_dir@.len() == 0 ==> c.local_base_dir@ == "~/grizol/staging_area"@,
        given.db_url@.len() > 0 ==> c.db_url@ == given.db_url@,
        given.db_url@.len() == 0 ==> c.db_url@ == "sqlite:~/.grizol/grizol.db"@,
        given.remote_base_dir@.len() > 0 ==> c.remote_base_dir@ == given.remote_base_dir@,
        given.remote_base_dir@.len() == 0 ==> c.remote_base_dir@ == "grizol"@,
        given.read_cache_dir@.len() > 0 ==> c.read_cache_dir@ == given.read_cache_dir@,
        given.read_cache_dir@.len() == 0 ==> c.read_cache_dir@ == "~/.grizol/read_cache"@,
        given.rclone_config@.len() > 0 ==> c.rclone_config is Some && c.rclone_config->0@
            == given.rclone_config@,
        given.rclone_config@.len() == 0 ==> c.rclone_config is None,
        given.mountpoint@.len() > 0 ==> c.mountpoint is Some && c.mountpoint->0@
            == given.mountpoint@,
        given.mountpoint@.len() == 0 ==> c.mountpoint is None,
        given.storage_strategy == 0 ==> c.storage_strategy == StorageStrategy::Local,
        given.storage_strategy == 2 ==> c.storage_strategy == StorageStrategy::LocalRemote,
        given.storage_strategy != 0 && given.storage_strategy != 2 ==> c.storage_strategy
            == StorageStrategy::Remote,
        given.read_cache_size@.len() > 0 ==> c.read_cache_size == read_cache_size->0,
        given.read_cache_size@.len() == 0 ==> c.read_cache_size == 1_000_000_000,
        given.max_total_pending_requests_size@.len() > 0 ==> c.max_total_pending_requests_size
            == max_size->0,
        given.max_total_pending_requests_size@.len() == 0 ==> c.max_total_pending_requests_size
            == 1_000_000_000,
        given.max_pending_requests matches Some(n) ==> c.max_pending_requests == n,
        given.max_pending_requests is None ==> c.max_pending_requests == 10_000,
        given.fuse_refresh_rate_ms matches Some(ms) ==> c.fuse_refresh_rate_ms == ms,
        given.fuse_refresh_rate_ms is None ==> c.fuse_refresh_rate_ms == 0,
        c.fuse_inmem == given.fuse_inmem,
        c.uid == uid,
        c.gid == gid,
{
}

proof fn lemma_peers_error(peers: Seq<Seq<char>>, i: int)
    requires
        0 <= i <= peers.len(),
        peers.len() <= usize::MAX,
    ensures
        match config::peers_error(peers, i) {
            Some(e) => e matches ConfigError::TrustedPeer { position, error } && i <= position
                < peers.len() && device_id::id_of_text(peers[position as int]) == Err::<
                Seq<u8>,
                DeviceIdError,
            >(error) && forall|j: int|
                i <= j < position ==> device_id::id_of_text(#[trigger] peers[j]) is Ok,
            None => forall|j: int|
                i <= j < peers.len() ==> device_id::id_of_text(#[trigger] peers[j]) is Ok,
        },
    decreases peers.len() - i,
{
    if i < peers.len() {
        lemma_peers_error(peers, i + 1);
    }
}

/// The configuration is refused for the first trusted peer whose id cannot be read, and not
/// where all can.
pub proof fn law_bad_peer_refused(peers: Seq<Seq<char>>)
    requires
        peers.len() <= usize::MAX,
    ensures
        match config::peers_error(peers, 0) {
            Some(e) => e matches ConfigError::TrustedPeer { position, error } && position
                < peers.len() && device_id::id_of_text(peers[position as int]) == Err::<
                Seq<u8>,
                DeviceIdError,
            >(error) && forall|j: int|
                0 <= j < position ==> device_id::id_of_text(#[trigger] peers[j]) is Ok,
            None => forall|j: int|
                0 <= j < peers.len() ==> device_id::id_of_text(#[trigger] peers[j]) is Ok,
        },
{
    lemma_peers_error(peers, 0);
}

/// The devices that are trusted are those whose ids are given, each once.
pub proof fn law_trusted_peers(
    c: GrizolConfig,
    given: Config,
    read_cache_size: Option<u64>,
    max_size: Option<u64>,
    uid: u32,
    gid: u32,
    id: Seq<u8>,
)
    requires
        config::is_config(c, given, read_cache_size, max_size, uid, gid),
    ensures
        (exists|i: int| 0 <= i < c.trusted_peers@.len() && (#[trigger] c.trusted_peers@[i]).id@ == id)
            <==> (exists|j: int|
            0 <= j < given.trusted_peers@.len() && device_id::id_of_text(
                (#[trigger] given.trusted_peers@[j])@,
            ) == Ok::<Seq<u8>, DeviceIdError>(id)),
        forall|i: int, j: int|
            0 <= i < j < c.trusted_peers@.len() ==> (#[trigger] c.trusted_peers@[i]).id@ != (
            #[trigger] c.trusted_peers@[j]).id@,
{
    let peers = crate::views(given.trusted_peers@);
    assert(config::lists_device(c.trusted_peers@, id) == config::names_peer(peers, id));
    if config::names_peer(peers, id) {
        let j = choose|j: int|
            0 <= j < peers.len() && device_id::id_of_text(#[trigger] peers[j]) == Ok::<
                Seq<u8>,
                DeviceIdError,
            >(id);
        assert(given.trusted_peers@[j]@ == peers[j]);
    }
    if exists|j: int|
        0 <= j < given.trusted_peers@.len() && device_id::id_of_text(
            (#[trigger] given.trusted_peers@[j])@,
        ) == Ok::<Seq<u8>, DeviceIdError>(id) {
        let j = choose|j: int|
            0 <= j < given.trusted_peers@.len() && device_id::id_of_text(
                (#[trigger] given.trusted_peers@[j])@,
            ) == Ok::<Seq<u8>, DeviceIdError>(id);
        assert(peers[j] == given.trusted_peers@[j]@);
    }
}

/// What is wrong with a configuration: a size that cannot be read or does not fit, or that
/// there is no certificate. A size that is not given is not wrong.
pub proof fn law_config_refused(
    given: Config,
    read_cache_size: Option<u64>,
    max_size: Option<u64>,
    has_certificate: bool,
)
    ensures
        ({
            let e = config::config_error(given, read_cache_size, max_size, has_certificate);
            let bad_cache = given.read_cache_size@.len() > 0 && read_cache_size is None;
            let bad_count = given.max_pending_requests is Some && given.max_pending_requests->0
                > usize::MAX;
            let bad_max = given.max_total_pending_requests_size@.len() > 0 && (max_size is None
                || max_size->0 > usize::MAX);
            &&& e == Some(ConfigError::ReadCacheSize) ==> bad_cache
            &&& bad_cache ==> e == Some(ConfigError::ReadCacheSize)
            &&& !bad_cache && bad_count ==> e == Some(ConfigError::MaxPendingRequests)
            &&& !bad_cache && !bad_count && bad_max ==> e == Some(
                ConfigError::MaxTotalPendingRequestsSize,
            )
            &&& !bad_cache && !bad_count && !bad_max && !has_certificate ==> e == Some(
                ConfigError::Certificate,
            )
            &&& !bad_cache && !bad_count && !bad_max && has_certificate ==> e
                == config::peers_error(crate::views(given.trusted_peers@), 0)
        }),
{
    let peers = crate::views(given.trusted_peers@);
    lemma_peer_kind(peers, 0);
}

proof fn lemma_peer_kind(peers: Seq<Seq<char>>, i: int)
    ensures
        config::peers_error(peers, i) matches Some(e) ==> e is TrustedPeer,
    decreases peers.len() - i,
{
    if 0 <= i < peers.len() {
        lemma_peer_kind(peers, i + 1);
    }
}

// ---------------------------------------------------------------------------
// Keys

/// What is left of a file behind its first sections, where there are so many.
pub open spec fn behind_sections(pem: Seq<u8>, count: nat) -> Option<Seq<u8>>
    decreases count,
{
    if count == 0 {
        Some(pem)
    } else {
        match behind_sections(pem, (count - 1) as nat) {
            Some(left) => match pem::pem_section(left) {
                Some(Some((item, rest))) => Some(rest),
                _ => None,
            },
            None => None,
        }
    }
}

/// The section is a private key, of one of three kinds, and this is the key.
pub open spec fn is_key(item: PemItemView, key: Seq<u8>) -> bool {
    item == PemItemView::RsaKey(key) || item == PemItemView::Pkcs8Key(key) || item
        == PemItemView::EcKey(key)
}

/// The first section that is left is a private key.
pub open spec fn starts_with_key(left: Seq<u8>) -> bool {
    pem::pem_section(left) matches Some(Some((item, rest))) && (item is RsaKey || item is Pkcs8Key
        || item is EcKey)
}

/// The key of a file is the first section that is a private key, of whatever kind. Where there
/// is none, the key is missing, or the file cannot be read.
pub proof fn law_first_key(file: Seq<u8>)
    ensures
        match pem::first_key(file) {
            Ok(key) => exists|n: nat| #[trigger]
                behind_sections(file, n) is Some && (pem::pem_section(
                    behind_sections(file, n)->0,
                ) matches Some(Some((item, rest))) && is_key(item, key)) && forall|m: nat|
                    m < n ==> !starts_with_key((#[trigger] behind_sections(file, m))->0),
            Err(e) => !starts_with_key(file),
        },
    decreases file.len(),
{
    match pem::pem_section(file) {
        Some(Some((item, rest))) => {
            if starts_with_key(file) {
                assert(behind_sections(file, 0) == Some(file));
            } else if rest.len() < file.len() {
                law_first_key(rest);
                if let Ok(key) = pem::first_key(rest) {
                    let n = choose|n: nat| #[trigger]
                        behind_sections(rest, n) is Some && (pem::pem_section(
                            behind_sections(rest, n)->0,
                        ) matches Some(Some((item, left))) && is_key(item, key)) && forall|m: nat|
                            m < n ==> !starts_with_key((#[trigger] behind_sections(rest, m))->0);
                    lemma_one_more_section(file, n);
                    assert forall|m: nat| m < n + 1 implies !starts_with_key(
                        (#[trigger] behind_sections(file, m))->0,
                    ) by {
                        if m > 0 {
                            lemma_one_more_section(file, (m - 1) as nat);
                            assert(!starts_with_key(behind_sections(rest, (m - 1) as nat)->0));
                        }
                    }
                    assert(behind_sections(file, n + 1) is Some);
                }
            }
        },
        _ => {},
    }
}

proof fn lemma_one_more_section(file: Seq<u8>, n: nat)
    ensures
        pem::pem_section(file) matches Some(Some((item, rest))) ==> behind_sections(file, n + 1)
            == behind_sections(rest, n),
    decreases n,
{
    if n > 0 {
        lemma_one_more_section(file, (n - 1) as nat);
    } else {
        reveal_with_fuel(behind_sections, 2);
    }
}

} // verus!
