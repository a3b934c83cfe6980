//! The configuration as a text.

use vstd::prelude::*;
use crate::config::Config;
use crate::wire;
use crate::wire::{DecodeError, Faithful, Field, FieldView, Message, WireValue, WireView};

verus! {

// ---------------------------------------------------------------------------
// The configuration as a message

#[verifier::ext_equal]
pub struct ConfigView {
    pub name: Seq<char>,
    pub address: Seq<char>,
    pub cert: Seq<char>,
    pub key: Seq<char>,
    pub base_dir: Seq<char>,
    pub db_url: Seq<char>,
    pub rclone_config: Seq<char>,
    pub remote_base_dir: Seq<char>,
    pub read_cache_dir: Seq<char>,
    pub read_cache_size: Seq<char>,
    pub mountpoint: Seq<char>,
    pub max_total_pending_requests_size: Seq<char>,
    pub trusted_peers: Seq<Seq<char>>,
    pub fuse_inmem: bool,
    pub fuse_refresh_rate_ms: Option<u64>,
    pub max_pending_requests: Option<u64>,
    pub storage_strategy: i32,
}

impl View for Config {
    type V = ConfigView;

    open spec fn view(&self) -> ConfigView {
        ConfigView {
            name: self.name@,
            address: self.address@,
            cert: self.cert@,
            key: self.key@,
            base_dir: self.base_dir@,
            db_url: self.db_url@,
            rclone_config: self.rclone_config@,
            remote_base_dir: self.remote_base_dir@,
            read_cache_dir: self.read_cache_dir@,
            read_cache_size: self.read_cache_size@,
            mountpoint: self.mountpoint@,
            max_total_pending_requests_size: self.max_total_pending_requests_size@,
            trusted_peers: crate::views(self.trusted_peers@),
            fuse_inmem: self.fuse_inmem,
            fuse_refresh_rate_ms: self.fuse_refresh_rate_ms,
            max_pending_requests: self.max_pending_requests,
            storage_strategy: self.storage_strategy,
        }
    }
}

impl Message for Config {
    open spec fn initial() -> ConfigView {
        ConfigView {
            name: Seq::empty(),
            address: Seq::empty(),
            cert: Seq::empty(),
            key: Seq::empty(),
            base_dir: Seq::empty(),
            db_url: Seq::empty(),
            rclone_config: Seq::empty(),
            remote_base_dir: Seq::empty(),
            read_cache_dir: Seq::empty(),
            read_cache_size: Seq::empty(),
            mountpoint: Seq::empty(),
            max_total_pending_requests_size: Seq::empty(),
            trusted_peers: Seq::empty(),
            fuse_inmem: false,
            fuse_refresh_rate_ms: None,
            max_pending_requests: None,
            storage_strategy: 0,
        }
    }

    open spec fn merged(v: ConfigView, field: FieldView, depth: nat) -> Option<ConfigView> {
        if field.tag == 1 {
            match wire::as_text(field.value) {
                None => None,
                Some(x) => Some(ConfigView { name: x, ..v }),
            }
        } else if field.tag == 2 {
            match wire::as_text(field.value) {
                None => None,
                Some(x) => Some(ConfigView { address: x, ..v }),
            }
        } else if field.tag == 3 {
            match wire::as_text(field.value) {
                None => None,
                Some(x) => Some(ConfigView { cert: x, ..v }),
            }
        } else if field.tag == 4 {
            match wire::as_text(field.value) {
                None => None,
                Some(x) => Some(ConfigView { key: x, ..v }),
            }
        } else if field.tag == 5 {
            match wire::as_text(field.value) {
                None => None,
                Some(x) => Some(ConfigView { base_dir: x, ..v }),
            }
        } else if field.tag == 6 {
            match wire::as_text(field.value) {
                None => None,
                Some(x) => Some(ConfigView { db_url: x, ..v }),
            }
        } else if field.tag == 7 {
            match wire::as_text(field.value) {
                None => None,
                Some(x) => Some(ConfigView { rclone_config: x, ..v }),
            }
        } else if field.tag == 8 {
            match wire::as_text(field.value) {
                None => None,
                Some(x) => Some(ConfigView { remote_base_dir: x, ..v }),
            }
        } else if field.tag == 9 {
            match wire::as_text(field.value) {
                None => None,
                Some(x) => Some(ConfigView { read_cache_dir: x, ..v }),
            }
        } else if field.tag == 10 {
            match wire::as_text(field.value) {
                None => None,
                Some(x) => Some(ConfigView { read_cache_size: x, ..v }),
            }
        } else if field.tag == 11 {
            match wire::as_text(field.value) {
                None => None,
                Some(x) => Some(ConfigView { mountpoint: x, ..v }),
            }
        } else if field.tag == 12 {
            match wire::as_text(field.value) {
                None => None,
                Some(x) => Some(ConfigView { max_total_pending_requests_size: x, ..v }),
            }
        } else if field.tag == 20 {
            match wire::as_text(field.value) {
                None => None,
                Some(x) => Some(ConfigView { trusted_peers: v.trusted_peers.push(x), ..v }),
            }
        } else if field.tag == 21 {
            match wire::as_number(field.value) {
                None => None,
                Some(x) => Some(ConfigView { fuse_inmem: x != 0, ..v }),
            }
        } else if field.tag == 22 {
            match wire::as_number(field.value) {
                None => None,
                Some(x) => Some(ConfigView { fuse_refresh_rate_ms: Some(x), ..v }),
            }
        } else if field.tag == 23 {
            match wire::as_number(field.value) {
                None => None,
                Some(x) => Some(ConfigView { max_pending_requests: Some(x), ..v }),
            }
        } else if field.tag == 24 {
            match wire::as_number(field.value) {
                None => None,
                Some(x) => Some(ConfigView { storage_strategy: x as i32, ..v }),
            }
        } else {
            Some(v)
        }
    }

    open spec fn sent(v: ConfigView) -> Seq<FieldView> {
        wire::text_field(1, v.name)
            + wire::text_field(2, v.address)
            + wire::text_field(3, v.cert)
            + wire::text_field(4, v.key)
            + wire::text_field(5, v.base_dir)
            + wire::text_field(6, v.db_url)
            + wire::text_field(7, v.rclone_config)
            + wire::text_field(8, v.remote_base_dir)
            + wire::text_field(9, v.read_cache_dir)
            + wire::text_field(10, v.read_cache_size)
            + wire::text_field(11, v.mountpoint)
            + wire::text_field(12, v.max_total_pending_requests_size)
            + wire::text_fields(20, v.trusted_peers)
            + wire::number_field(21, wire::flag(v.fuse_inmem))
            + wire::optional_number_field(22, v.fuse_refresh_rate_ms)
            + wire::optional_number_field(23, v.max_pending_requests)
            + wire::number_field(24, v.storage_strategy as u64)
    }

    fn empty() -> (r: Self) {
        let r = Config {
            name: String::new(),
            address: String::new(),
            cert: String::new(),
            key: String::new(),
            base_dir: String::new(),
            db_url: String::new(),
            rclone_config: String::new(),
            remote_base_dir: String::new(),
            read_cache_dir: String::new(),
            read_cache_size: String::new(),
            mountpoint: String::new(),
            max_total_pending_requests_size: String::new(),
            trusted_peers: Vec::new(),
            fuse_inmem: false,
            fuse_refresh_rate_ms: None,
            max_pending_requests: None,
            storage_strategy: 0,
        };
        assert(r.name@ =~= Seq::empty());
        assert(r.address@ =~= Seq::empty());
        assert(r.cert@ =~= Seq::empty());
        assert(r.key@ =~= Seq::empty());
        assert(r.base_dir@ =~= Seq::empty());
        assert(r.db_url@ =~= Seq::empty());
        assert(r.rclone_config@ =~= Seq::empty());
        assert(r.remote_base_dir@ =~= Seq::empty());
        assert(r.read_cache_dir@ =~= Seq::empty());
        assert(r.read_cache_size@ =~= Seq::empty());
        assert(r.mountpoint@ =~= Seq::empty());
        assert(r.max_total_pending_requests_size@ =~= Seq::empty());
        assert(crate::views(r.trusted_peers@) =~= Seq::empty());
        r
    }

    fn merge(&mut self, field: Field, depth: u32) -> (r: Result<(), DecodeError>) {
        match field.tag {
            1 => {
                self.name = field.value.into_text()?;
            },
            2 => {
                self.address = field.value.into_text()?;
            },
            3 => {
                self.cert = field.value.into_text()?;
            },
            4 => {
                self.key = field.value.into_text()?;
            },
            5 => {
                self.base_dir = field.value.into_text()?;
            },
            6 => {
                self.db_url = field.value.into_text()?;
            },
            7 => {
                self.rclone_config = field.value.into_text()?;
            },
            8 => {
                self.remote_base_dir = field.value.into_text()?;
            },
            9 => {
                self.read_cache_dir = field.value.into_text()?;
            },
            10 => {
                self.read_cache_size = field.value.into_text()?;
            },
            11 => {
                self.mountpoint = field.value.into_text()?;
            },
            12 => {
                self.max_total_pending_requests_size = field.value.into_text()?;
            },
            20 => {
                let x = field.value.into_text()?;
                proof {
                    crate::lemma_views_push(self.trusted_peers@, x);
                }
                self.trusted_peers.push(x);
            },
            21 => {
                self.fuse_inmem = field.value.into_number()? != 0;
            },
            22 => {
                self.fuse_refresh_rate_ms = Some(field.value.into_number()?);
            },
            23 => {
                self.max_pending_requests = Some(field.value.into_number()?);
            },
            24 => {
                self.storage_strategy = field.value.into_number()? as i32;
            },
            _ => {},
        }
        Ok(())
    }

    fn to_fields(&self) -> (r: Vec<Field>) {
        let mut out: Vec<Field> = Vec::new();
        wire::push_text(&mut out, 1, &self.name);
        assert(crate::views(out@) =~= wire::text_field(1, self@.name));
        wire::push_text(&mut out, 2, &self.address);
        wire::push_text(&mut out, 3, &self.cert);
        wire::push_text(&mut out, 4, &self.key);
        wire::push_text(&mut out, 5, &self.base_dir);
        wire::push_text(&mut out, 6, &self.db_url);
        wire::push_text(&mut out, 7, &self.rclone_config);
        wire::push_text(&mut out, 8, &self.remote_base_dir);
        wire::push_text(&mut out, 9, &self.read_cache_dir);
        wire::push_text(&mut out, 10, &self.read_cache_size);
        wire::push_text(&mut out, 11, &self.mountpoint);
        wire::push_text(&mut out, 12, &self.max_total_pending_requests_size);
        wire::push_texts(&mut out, 20, &self.trusted_peers);
        wire::push_flag(&mut out, 21, self.fuse_inmem);
        wire::push_optional_number(&mut out, 22, self.fuse_refresh_rate_ms);
        wire::push_optional_number(&mut out, 23, self.max_pending_requests);
        wire::push_number(&mut out, 24, self.storage_strategy as u64);
        out
    }

    proof fn sent_is_sendable(v: ConfigView) {
        broadcast use wire::group_sendable;

    }
}

impl Faithful for Config {
    open spec fn levels() -> nat {
        0
    }

    proof fn merged_back(v: ConfigView, depth: nat) {
        let m0 = Self::initial();
        let s1 = wire::text_field(1, v.name);
        let m1 = ConfigView { name: v.name, ..m0 };
        wire::lemma_text_back(v.name);
        let p1 = s1;
        wire::lemma_at_most_one::<Self>(m0, s1, m1, depth);
        let s2 = wire::text_field(2, v.address);
        let m2 = ConfigView { address: v.address, ..m1 };
        wire::lemma_text_back(v.address);
        let p2 = p1 + s2;
        wire::lemma_at_most_one::<Self>(m1, s2, m2, depth);
        wire::lemma_then::<Self>(m0, p1, m1, s2, m2, depth);
        let s3 = wire::text_field(3, v.cert);
        let m3 = ConfigView { cert: v.cert, ..m2 };
        wire::lemma_text_back(v.cert);
        let p3 = p2 + s3;
        wire::lemma_at_most_one::<Self>(m2, s3, m3, depth);
        wire::lemma_then::<Self>(m0, p2, m2, s3, m3, depth);
        let s4 = wire::text_field(4, v.key);
        let m4 = ConfigView { key: v.key, ..m3 };
        wire::lemma_text_back(v.key);
        let p4 = p3 + s4;
        wire::lemma_at_most_one::<Self>(m3, s4, m4, depth);
        wire::lemma_then::<Self>(m0, p3, m3, s4, m4, depth);
        let s5 = wire::text_field(5, v.base_dir);
        let m5 = ConfigView { base_dir: v.base_dir, ..m4 };
        wire::lemma_text_back(v.base_dir);
        let p5 = p4 + s5;
        wire::lemma_at_most_one::<Self>(m4, s5, m5, depth);
        wire::lemma_then::<Self>(m0, p4, m4, s5, m5, depth);
        let s6 = wire::text_field(6, v.db_url);
        let m6 = ConfigView { db_url: v.db_url, ..m5 };
        wire::lemma_text_back(v.db_url);
        let p6 = p5 + s6;
        wire::lemma_at_most_one::<Self>(m5, s6, m6, depth);
        wire::lemma_then::<Self>(m0, p5, m5, s6, m6, depth);
        let s7 = wire::text_field(7, v.rclone_config);
        let m7 = ConfigView { rclone_config: v.rclone_config, ..m6 };
        wire::lemma_text_back(v.rclone_config);
        let p7 = p6 + s7;
        wire::lemma_at_most_one::<Self>(m6, s7, m7, depth);
        wire::lemma_then::<Self>(m0, p6, m6, s7, m7, depth);
        let s8 = wire::text_field(8, v.remote_base_dir);
        let m8 = ConfigView { remote_base_dir: v.remote_base_dir, ..m7 };
        wire::lemma_text_back(v.remote_base_dir);
        let p8 = p7 + s8;
        wire::lemma_at_most_one::<Self>(m7, s8, m8, depth);
        wire::lemma_then::<Self>(m0, p7, m7, s8, m8, depth);
        let s9 = wire::text_field(9, v.read_cache_dir);
        let m9 = ConfigView { read_cache_dir: v.read_cache_dir, ..m8 };
        wire::lemma_text_back(v.read_cache_dir);
        let p9 = p8 + s9;
        wire::lemma_at_most_one::<Self>(m8, s9, m9, depth);
        wire::lemma_then::<Self>(m0, p8, m8, s9, m9, depth);
        let s10 = wire::text_field(10, v.read_cache_size);
        let m10 = ConfigView { read_cache_size: v.read_cache_size, ..m9 };
        wire::lemma_text_back(v.read_cache_size);
        let p10 = p9 + s10;
        wire::lemma_at_most_one::<Self>(m9, s10, m10, depth);
        wire::lemma_then::<Self>(m0, p9, m9, s10, m10, depth);
        let s11 = wire::text_field(11, v.mountpoint);
        let m11 = ConfigView { mountpoint: v.mountpoint, ..m10 };
        wire::lemma_text_back(v.mountpoint);
        let p11 = p10 + s11;
        wire::lemma_at_most_one::<Self>(m10, s11, m11, depth);
        wire::lemma_then::<Self>(m0, p10, m10, s11, m11, depth);
        let s12 = wire::text_field(12, v.max_total_pending_requests_size);
        let m12 = ConfigView { max_total_pending_requests_size: v.max_total_pending_requests_size, ..m11 };
        wire::lemma_text_back(v.max_total_pending_requests_size);
        let p12 = p11 + s12;
        wire::lemma_at_most_one::<Self>(m11, s12, m12, depth);
        wire::lemma_then::<Self>(m0, p11, m11, s12, m12, depth);
        let s13 = wire::text_fields(20, v.trusted_peers);
        let m13 = ConfigView { trusted_peers: v.trusted_peers, ..m12 };
        let p13 = p12 + s13;
        let put13 = |xs: Seq<Seq<char>>| ConfigView { trusted_peers: xs, ..m12 };
        assert forall|pre: Seq<Seq<char>>, j: int|
            0 <= j < v.trusted_peers.len() implies #[trigger] Self::merged(
            put13(pre),
            s13[j],
            depth,
        ) == Some(put13(pre.push(v.trusted_peers[j]))) by {
            wire::lemma_text_back(v.trusted_peers[j]);
        }
        wire::lemma_repeated::<Self, Seq<char>>(put13, Seq::empty(), v.trusted_peers, s13, depth);
        assert(Seq::<Seq<char>>::empty() + v.trusted_peers =~= v.trusted_peers);
        assert(put13(Seq::empty()) == m12);
        wire::lemma_then::<Self>(m0, p12, m12, s13, m13, depth);
        let s14 = wire::number_field(21, wire::flag(v.fuse_inmem));
        let m14 = ConfigView { fuse_inmem: v.fuse_inmem, ..m13 };
        let p14 = p13 + s14;
        wire::lemma_at_most_one::<Self>(m13, s14, m14, depth);
        wire::lemma_then::<Self>(m0, p13, m13, s14, m14, depth);
        let s15 = wire::optional_number_field(22, v.fuse_refresh_rate_ms);
        let m15 = ConfigView { fuse_refresh_rate_ms: v.fuse_refresh_rate_ms, ..m14 };
        let p15 = p14 + s15;
        wire::lemma_at_most_one::<Self>(m14, s15, m15, depth);
        wire::lemma_then::<Self>(m0, p14, m14, s15, m15, depth);
        let s16 = wire::optional_number_field(23, v.max_pending_requests);
        let m16 = ConfigView { max_pending_requests: v.max_pending_requests, ..m15 };
        let p16 = p15 + s16;
        wire::lemma_at_most_one::<Self>(m15, s16, m16, depth);
        wire::lemma_then::<Self>(m0, p15, m15, s16, m16, depth);
        let s17 = wire::number_field(24, v.storage_strategy as u64);
        let m17 = ConfigView { storage_strategy: v.storage_strategy, ..m16 };
        wire::lemma_number_back(v.storage_strategy, 0, 0);
        let p17 = p16 + s17;
        wire::lemma_at_most_one::<Self>(m16, s17, m17, depth);
        wire::lemma_then::<Self>(m0, p16, m16, s17, m17, depth);
        assert(m17 =~= v);
    }
}

/// A configuration that is encoded is read back as it.
pub proof fn law_config_read_back(v: ConfigView)
    requires
        wire::encoded::<Config>(v).len() <= u64::MAX,
    ensures
        wire::decoded::<Config>(wire::encoded::<Config>(v)) == Some(v),
{
    wire::lemma_decode_encode::<Config>(v);
}

// ---------------------------------------------------------------------------
// The description of the message

/// A field with a text.
pub open spec fn text_value(tag: u32, x: Seq<char>) -> FieldView {
    FieldView { tag, value: WireView::Bytes(vstd::utf8::encode_utf8(x)) }
}

/// A field with a number, also where it is zero.
pub open spec fn number_value(tag: u32, x: u64) -> FieldView {
    FieldView { tag, value: WireView::Varint(x) }
}

/// A field with a message.
#[verifier::opaque]
pub open spec fn message_value(tag: u32, fs: Seq<FieldView>) -> FieldView {
    FieldView { tag, value: WireView::Bytes(wire::bytes_of(fs)) }
}

fn put_text(out: &mut Vec<Field>, tag: u32, x: &str)
    requires
        1 <= tag < 0x2000_0000,
        wire::all_sendable(crate::views(old(out)@)),
    ensures
        crate::views(final(out)@) == crate::views(old(out)@).push(text_value(tag, x@)),
        wire::all_sendable(crate::views(final(out)@)),
{
    let field = Field { tag, value: WireValue::Bytes(vstd::slice::slice_to_vec(x.as_bytes())) };
    proof {
        reveal(wire::all_sendable);
        crate::lemma_views_push(out@, field);
    }
    out.push(field);
}

fn put_number(out: &mut Vec<Field>, tag: u32, x: u64)
    requires
        1 <= tag < 0x2000_0000,
        wire::all_sendable(crate::views(old(out)@)),
    ensures
        crate::views(final(out)@) == crate::views(old(out)@).push(number_value(tag, x)),
        wire::all_sendable(crate::views(final(out)@)),
{
    let field = Field { tag, value: WireValue::Varint(x) };
    proof {
        reveal(wire::all_sendable);
        crate::lemma_views_push(out@, field);
    }
    out.push(field);
}

fn put_message(out: &mut Vec<Field>, tag: u32, fields: &Vec<Field>)
    requires
        1 <= tag < 0x2000_0000,
        wire::all_sendable(crate::views(old(out)@)),
        wire::all_sendable(crate::views(fields@)),
    ensures
        crate::views(final(out)@) == crate::views(old(out)@).push(
            message_value(tag, crate::views(fields@)),
        ),
        wire::all_sendable(crate::views(final(out)@)),
{
    let field = Field { tag, value: WireValue::Bytes(wire::encode_fields(fields)) };
    proof {
        reveal(message_value);
        reveal(wire::all_sendable);
        crate::lemma_views_push(out@, field);
    }
    out.push(field);
}

fn no_fields() -> (r: Vec<Field>)
    ensures
        crate::views(r@) == Seq::<FieldView>::empty(),
        wire::all_sendable(crate::views(r@)),
{
    let r: Vec<Field> = Vec::new();
    proof {
        reveal(wire::all_sendable);
    }
    assert(crate::views(r@) =~= Seq::<FieldView>::empty());
    r
}

/// The label of a field that occurs at most once.
pub const OPTIONAL: u64 = 1;

/// The label of a field that occurs any number of times.
pub const REPEATED: u64 = 3;

/// The type of unsigned numbers.
pub const NUMBERS: u64 = 4;

/// The type of truth values.
pub const FLAGS: u64 = 8;

/// The type of texts.
pub const TEXTS: u64 = 9;

/// The type of named numbers.
pub const CHOICES: u64 = 14;

/// The description of a field: its name, its number, how often it occurs and its type.
pub open spec fn described(name: Seq<char>, number: u64, label: u64, kind: u64) -> Seq<FieldView> {
    Seq::empty()
        .push(text_value(1, name))
        .push(number_value(3, number))
        .push(number_value(4, label))
        .push(number_value(5, kind))
}

fn describe(name: &str, number: u64, label: u64, kind: u64) -> (r: Vec<Field>)
    ensures
        crate::views(r@) == described(name@, number, label, kind),
        wire::all_sendable(crate::views(r@)),
{
    let mut out = no_fields();
    put_text(&mut out, 1, name);
    put_number(&mut out, 3, number);
    put_number(&mut out, 4, label);
    put_number(&mut out, 5, kind);
    out
}

fn put_field(out: &mut Vec<Field>, name: &str, number: u64, label: u64, kind: u64)
    requires
        wire::all_sendable(crate::views(old(out)@)),
    ensures
        crate::views(final(out)@) == crate::views(old(out)@).push(
            message_value(2, described(name@, number, label, kind)),
        ),
        wire::all_sendable(crate::views(final(out)@)),
{
    let field = describe(name, number, label, kind);
    put_message(out, 2, &field);
}

/// The description of a number that may be left out, the only one of its group.
pub open spec fn optional_described(name: Seq<char>, number: u64, group: u64) -> Seq<FieldView> {
    described(name, number, OPTIONAL, NUMBERS).push(number_value(9, group)).push(
        number_value(17, 1),
    )
}

fn put_optional(out: &mut Vec<Field>, name: &str, number: u64, group: u64)
    requires
        wire::all_sendable(crate::views(old(out)@)),
    ensures
        crate::views(final(out)@) == crate::views(old(out)@).push(
            message_value(2, optional_described(name@, number, group)),
        ),
        wire::all_sendable(crate::views(final(out)@)),
{
    let mut field = describe(name, number, OPTIONAL, NUMBERS);
    put_number(&mut field, 9, group);
    put_number(&mut field, 17, 1);
    put_message(out, 2, &field);
}

/// The description of the strategy.
pub open spec fn strategy_described(name: Seq<char>, number: u64) -> Seq<FieldView> {
    described(name, number, OPTIONAL, CHOICES).push(text_value(6, ".grizol.StorageStrategy"@))
}

fn put_strategy(out: &mut Vec<Field>, name: &str, number: u64)
    requires
        wire::all_sendable(crate::views(old(out)@)),
    ensures
        crate::views(final(out)@) == crate::views(old(out)@).push(
            message_value(2, strategy_described(name@, number)),
        ),
        wire::all_sendable(crate::views(final(out)@)),
{
    let mut field = describe(name, number, OPTIONAL, CHOICES);
    put_text(&mut field, 6, ".grizol.StorageStrategy");
    put_message(out, 2, &field);
}

/// The description of what has only a name.
pub open spec fn named(name: Seq<char>) -> Seq<FieldView> {
    Seq::empty().push(text_value(1, name))
}

fn put_named(out: &mut Vec<Field>, tag: u32, name: &str)
    requires
        1 <= tag < 0x2000_0000,
        wire::all_sendable(crate::views(old(out)@)),
    ensures
        crate::views(final(out)@) == crate::views(old(out)@).push(
            message_value(tag, named(name@)),
        ),
        wire::all_sendable(crate::views(final(out)@)),
{
    let mut named = no_fields();
    put_text(&mut named, 1, name);
    put_message(out, tag, &named);
}

/// The description of a named number.
pub open spec fn choice_described(name: Seq<char>, number: u64) -> Seq<FieldView> {
    Seq::empty().push(text_value(1, name)).push(number_value(2, number))
}

fn put_choice(out: &mut Vec<Field>, name: &str, number: u64)
    requires
        wire::all_sendable(crate::views(old(out)@)),
    ensures
        crate::views(final(out)@) == crate::views(old(out)@).push(
            message_value(2, choice_described(name@, number)),
        ),
        wire::all_sendable(crate::views(final(out)@)),
{
    let mut choice = no_fields();
    put_text(&mut choice, 1, name);
    put_number(&mut choice, 2, number);
    put_message(out, 2, &choice);
}

/// The description of `Config`: its name, its fields, and the groups of those that may be
/// left out.
pub open spec fn config_described() -> Seq<FieldView> {
    Seq::empty()
        .push(text_value(1, "Config"@))
        .push(message_value(2, described("name"@, 1, OPTIONAL, TEXTS)))
        .push(message_value(2, described("address"@, 2, OPTIONAL, TEXTS)))
        .push(message_value(2, described("cert"@, 3, OPTIONAL, TEXTS)))
        .push(message_value(2, described("key"@, 4, OPTIONAL, TEXTS)))
        .push(message_value(2, described("base_dir"@, 5, OPTIONAL, TEXTS)))
        .push(message_value(2, described("db_url"@, 6, OPTIONAL, TEXTS)))
        .push(message_value(2, described("rclone_config"@, 7, OPTIONAL, TEXTS)))
        .push(message_value(2, described("remote_base_dir"@, 8, OPTIONAL, TEXTS)))
        .push(message_value(2, described("read_cache_dir"@, 9, OPTIONAL, TEXTS)))
        .push(message_value(2, described("read_cache_size"@, 10, OPTIONAL, TEXTS)))
        .push(message_value(2, described("mountpoint"@, 11, OPTIONAL, TEXTS)))
        .push(message_value(2, described("max_total_pending_requests_size"@, 12, OPTIONAL, TEXTS)))
        .push(message_value(2, described("trusted_peers"@, 20, REPEATED, TEXTS)))
        .push(message_value(2, described("fuse_inmem"@, 21, OPTIONAL, FLAGS)))
        .push(message_value(2, optional_described("fuse_refresh_rate_ms"@, 22, 0)))
        .push(message_value(2, optional_described("max_pending_requests"@, 23, 1)))
        .push(message_value(2, strategy_described("storage_strategy"@, 24)))
        .push(message_value(8, named("_fuse_refresh_rate_ms"@)))
        .push(message_value(8, named("_max_pending_requests"@)))
}

fn describe_config() -> (r: Vec<Field>)
    ensures
        crate::views(r@) == config_described(),
        wire::all_sendable(crate::views(r@)),
{
    let mut out = no_fields();
    put_text(&mut out, 1, "Config");
    put_field(&mut out, "name", 1, OPTIONAL, TEXTS);
    put_field(&mut out, "address", 2, OPTIONAL, TEXTS);
    put_field(&mut out, "cert", 3, OPTIONAL, TEXTS);
    put_field(&mut out, "key", 4, OPTIONAL, TEXTS);
    put_field(&mut out, "base_dir", 5, OPTIONAL, TEXTS);
    put_field(&mut out, "db_url", 6, OPTIONAL, TEXTS);
    put_field(&mut out, "rclone_config", 7, OPTIONAL, TEXTS);
    put_field(&mut out, "remote_base_dir", 8, OPTIONAL, TEXTS);
    put_field(&mut out, "read_cache_dir", 9, OPTIONAL, TEXTS);
    put_field(&mut out, "read_cache_size", 10, OPTIONAL, TEXTS);
    put_field(&mut out, "mountpoint", 11, OPTIONAL, TEXTS);
    put_field(&mut out, "max_total_pending_requests_size", 12, OPTIONAL, TEXTS);
    put_field(&mut out, "trusted_peers", 20, REPEATED, TEXTS);
    put_field(&mut out, "fuse_inmem", 21, OPTIONAL, FLAGS);
    put_optional(&mut out, "fuse_refresh_rate_ms", 22, 0);
    put_optional(&mut out, "max_pending_requests", 23, 1);
    put_strategy(&mut out, "storage_strategy", 24);
    put_named(&mut out, 8, "_fuse_refresh_rate_ms");
    put_named(&mut out, 8, "_max_pending_requests");
    out
}

/// The description of the strategies.
pub open spec fn strategies_described() -> Seq<FieldView> {
    Seq::empty()
        .push(text_value(1, "StorageStrategy"@))
        .push(message_value(2, choice_described("LOCAL"@, 0)))
        .push(message_value(2, choice_described("REMOTE"@, 1)))
        .push(message_value(2, choice_described("LOCAL_REMOTE"@, 2)))
}

fn describe_strategies() -> (r: Vec<Field>)
    ensures
        crate::views(r@) == strategies_described(),
        wire::all_sendable(crate::views(r@)),
{
    let mut out = no_fields();
    put_text(&mut out, 1, "StorageStrategy");
    put_choice(&mut out, "LOCAL", 0);
    put_choice(&mut out, "REMOTE", 1);
    put_choice(&mut out, "LOCAL_REMOTE", 2);
    out
}

/// The description of the file that declares the two.
pub open spec fn file_described() -> Seq<FieldView> {
    Seq::empty()
        .push(text_value(1, "config.proto"@))
        .push(text_value(2, "grizol"@))
        .push(message_value(4, config_described()))
        .push(message_value(5, strategies_described()))
        .push(text_value(12, "proto3"@))
}

/// The encoded description of the configuration.
pub open spec fn config_descriptors() -> Seq<u8> {
    wire::bytes_of(seq![message_value(1, file_described())])
}

/// The encoded description of the configuration.
pub fn describe_file() -> (r: Vec<u8>)
    ensures
        r@ == config_descriptors(),
{
    let mut file = no_fields();
    put_text(&mut file, 1, "config.proto");
    put_text(&mut file, 2, "grizol");
    let config = describe_config();
    put_message(&mut file, 4, &config);
    let strategies = describe_strategies();
    put_message(&mut file, 5, &strategies);
    put_text(&mut file, 12, "proto3");
    let mut files = no_fields();
    put_message(&mut files, 1, &file);
    wire::encode_fields(&files)
}

// ---------------------------------------------------------------------------
// The text

/// How many messages may be opened in the text.
pub const MAX_OPENED: usize = 200;

/// The character opens a message in a message.
pub open spec fn opens(c: char) -> bool {
    c == '{' || c == '<'
}

/// How many characters of the text open a message.
pub open spec fn opened(text: Seq<char>) -> nat
    decreases text.len(),
{
    if text.len() == 0 {
        0
    } else if opens(text.last()) {
        opened(text.drop_last()) + 1
    } else {
        opened(text.drop_last())
    }
}

/// What `prost_reflect::DynamicMessage::parse_text_format` reads the text as, encoded, where
/// the text is one of the message with this name and the encoded `descriptors` describe the
/// message; none where one of the calls reports an error.
pub uninterp spec fn text_encoded(
    descriptors: Seq<u8>,
    name: Seq<char>,
    text: Seq<char>,
) -> Option<Seq<u8>>;

/// Calls `prost_reflect::DescriptorPool::decode`, `get_message_by_name` on what it gives,
/// `DynamicMessage::parse_text_format` with that, and encodes the message with
/// `prost::Message::encode_to_vec`. The result, named by `text_encoded`, depends on the three
/// arguments alone. It is called for the one description, on a text that opens few messages:
/// each that is opened in another takes room on the stack.
#[verifier::external_body]
fn encode_text(descriptors: &[u8], name: &str, text: &str) -> (r: Option<Vec<u8>>)
    requires
        descriptors@ == config_descriptors(),
        name@ == "grizol.Config"@,
        opened(text@) <= MAX_OPENED,
    ensures
        match r {
            Some(v) => text_encoded(descriptors@, name@, text@) == Some(v@),
            None => text_encoded(descriptors@, name@, text@) is None,
        },
{
    let pool = prost_reflect::DescriptorPool::decode(descriptors).ok()?;
    let message = pool.get_message_by_name(name)?;
    let parsed = prost_reflect::DynamicMessage::parse_text_format(message, text).ok()?;
    Some(prost::Message::encode_to_vec(&parsed))
}

/// The configuration that is encoded in the bytes.
pub fn config_of_bytes(bytes: &[u8]) -> (r: Option<Config>)
    ensures
        wire::view_option(r) == wire::decoded::<Config>(bytes@),
{
    match wire::decode::<Config>(bytes) {
        Ok(config) => Some(config),
        Err(_) => None,
    }
}

/// The text opens no more messages than it may.
pub fn opens_few(text: &str) -> (r: bool)
    ensures
        r == (opened(text@) <= MAX_OPENED),
{
    let chars = crate::text::chars_of(text);
    let mut count: usize = 0;
    let mut i: usize = 0;
    while i < chars.len()
        invariant
            i <= chars@.len(),
            count <= i,
            count == opened(chars@.take(i as int)),
        decreases chars@.len() - i,
    {
        assert(chars@.take(i + 1).drop_last() =~= chars@.take(i as int));
        let c: char = chars[i];
        if c == '{' || c == '<' {
            count += 1;
        }
        i += 1;
    }
    assert(chars@.take(chars@.len() as int) =~= chars@);
    count <= MAX_OPENED
}

/// The configuration that a text in the text format of protocol buffers holds; none where it
/// holds no configuration, or opens more messages than it may.
pub fn parse_config(text: &str) -> (r: Option<Config>)
    ensures
        wire::view_option(r) == if opened(text@) > MAX_OPENED {
            None
        } else {
            match text_encoded(config_descriptors(), "grizol.Config"@, text@) {
                Some(b) => wire::decoded::<Config>(b),
                None => None,
            }
        },
{
    if !opens_few(text) {
        return None;
    }
    let descriptors = describe_file();
    match encode_text(descriptors.as_slice(), "grizol.Config", text) {
        Some(bytes) => config_of_bytes(bytes.as_slice()),
        None => None,
    }
}

} // verus!
