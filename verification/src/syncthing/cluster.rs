//! What a device says of itself and of the folders it shares.

use vstd::prelude::*;
use crate::wire;
use crate::wire::{DecodeError, Faithful, Field, FieldView, Message};

verus! {

/// A device that shares a folder.
#[derive(Debug, PartialEq)]
pub struct Device {
    pub id: Vec<u8>,
    pub name: String,
    pub addresses: Vec<String>,
    /// A number of `Compression`.
    pub compression: i32,
    pub cert_name: String,
    pub max_sequence: i64,
    pub introducer: bool,
    pub index_id: u64,
    pub skip_introduction_removals: bool,
    pub encryption_password_token: Vec<u8>,
}

#[verifier::ext_equal]
pub struct DeviceView {
    pub id: Seq<u8>,
    pub name: Seq<char>,
    pub addresses: Seq<Seq<char>>,
    pub compression: i32,
    pub cert_name: Seq<char>,
    pub max_sequence: i64,
    pub introducer: bool,
    pub index_id: u64,
    pub skip_introduction_removals: bool,
    pub encryption_password_token: Seq<u8>,
}

impl View for Device {
    type V = DeviceView;

    open spec fn view(&self) -> DeviceView {
        DeviceView {
            id: self.id@,
            name: self.name@,
            addresses: crate::views(self.addresses@),
            compression: self.compression,
            cert_name: self.cert_name@,
            max_sequence: self.max_sequence,
            introducer: self.introducer,
            index_id: self.index_id,
            skip_introduction_removals: self.skip_introduction_removals,
            encryption_password_token: self.encryption_password_token@,
        }
    }
}

impl Clone for Device {
    fn clone(&self) -> (r: Self)
        ensures
            r@ == self@,
    {
        let r = Device {
            id: self.id.clone(),
            name: self.name.clone(),
            addresses: self.addresses.clone(),
            compression: self.compression,
            cert_name: self.cert_name.clone(),
            max_sequence: self.max_sequence,
            introducer: self.introducer,
            index_id: self.index_id,
            skip_introduction_removals: self.skip_introduction_removals,
            encryption_password_token: self.encryption_password_token.clone(),
        };
        assert(r.id@ =~= self.id@);
        assert(crate::views(r.addresses@) =~= crate::views(self.addresses@));
        assert(r.encryption_password_token@ =~= self.encryption_password_token@);
        r
    }
}

impl Message for Device {
    open spec fn initial() -> DeviceView {
        DeviceView {
            id: Seq::empty(),
            name: Seq::empty(),
            addresses: Seq::empty(),
            compression: 0,
            cert_name: Seq::empty(),
            max_sequence: 0,
            introducer: false,
            index_id: 0,
            skip_introduction_removals: false,
            encryption_password_token: Seq::empty(),
        }
    }

    open spec fn merged(v: DeviceView, field: FieldView, depth: nat) -> Option<DeviceView> {
        if field.tag == 1 {
            match wire::as_bytes(field.value) {
                None => None,
                Some(x) => Some(DeviceView { id: x, ..v }),
            }
        } else if field.tag == 2 {
            match wire::as_text(field.value) {
                None => None,
                Some(x) => Some(DeviceView { name: x, ..v }),
            }
        } else if field.tag == 3 {
            match wire::as_text(field.value) {
                None => None,
                Some(x) => Some(DeviceView { addresses: v.addresses.push(x), ..v }),
            }
        } else if field.tag == 4 {
            match wire::as_number(field.value) {
                None => None,
                Some(x) => Some(DeviceView { compression: x as i32, ..v }),
            }
        } else if field.tag == 5 {
            match wire::as_text(field.value) {
                None => None,
                Some(x) => Some(DeviceView { cert_name: x, ..v }),
            }
        } else if field.tag == 6 {
            match wire::as_number(field.value) {
                None => None,
                Some(x) => Some(DeviceView { max_sequence: x as i64, ..v }),
            }
        } else if field.tag == 7 {
            match wire::as_number(field.value) {
                None => None,
                Some(x) => Some(DeviceView { introducer: x != 0, ..v }),
            }
        } else if field.tag == 8 {
            match wire::as_number(field.value) {
                None => None,
                Some(x) => Some(DeviceView { index_id: x, ..v }),
            }
        } else if field.tag == 9 {
            match wire::as_number(field.value) {
                None => None,
                Some(x) => Some(DeviceView { skip_introduction_removals: x != 0, ..v }),
            }
        } else if field.tag == 10 {
            match wire::as_bytes(field.value) {
                None => None,
                Some(x) => Some(DeviceView { encryption_password_token: x, ..v }),
            }
        } else {
            Some(v)
        }
    }

    open spec fn sent(v: DeviceView) -> Seq<FieldView> {
        wire::bytes_field(1, v.id)
            + wire::text_field(2, v.name)
            + wire::text_fields(3, v.addresses)
            + wire::number_field(4, v.compression as u64)
            + wire::text_field(5, v.cert_name)
            + wire::number_field(6, v.max_sequence as u64)
            + wire::number_field(7, wire::flag(v.introducer))
            + wire::number_field(8, v.index_id)
            + wire::number_field(9, wire::flag(v.skip_introduction_removals))
            + wire::bytes_field(10, v.encryption_password_token)
    }

    fn empty() -> (r: Self) {
        let r = Device {
            id: Vec::new(),
            name: String::new(),
            addresses: Vec::new(),
            compression: 0,
            cert_name: String::new(),
            max_sequence: 0,
            introducer: false,
            index_id: 0,
            skip_introduction_removals: false,
            encryption_password_token: Vec::new(),
        };
        assert(r.id@ =~= Seq::empty());
        assert(r.name@ =~= Seq::empty());
        assert(crate::views(r.addresses@) =~= Seq::empty());
        assert(r.cert_name@ =~= Seq::empty());
        assert(r.encryption_password_token@ =~= Seq::empty());
        r
    }

    fn merge(&mut self, field: Field, depth: u32) -> (r: Result<(), DecodeError>) {
        match field.tag {
            1 => {
                self.id = field.value.into_bytes()?;
            },
            2 => {
                self.name = field.value.into_text()?;
            },
            3 => {
                let x = field.value.into_text()?;
                proof {
                    crate::lemma_views_push(self.addresses@, x);
                }
                self.addresses.push(x);
            },
            4 => {
                self.compression = field.value.into_number()? as i32;
            },
            5 => {
                self.cert_name = field.value.into_text()?;
            },
            6 => {
                self.max_sequence = field.value.into_number()? as i64;
            },
            7 => {
                self.introducer = field.value.into_number()? != 0;
            },
            8 => {
                self.index_id = field.value.into_number()?;
            },
            9 => {
                self.skip_introduction_removals = field.value.into_number()? != 0;
            },
            10 => {
                self.encryption_password_token = field.value.into_bytes()?;
            },
            _ => {},
        }
        Ok(())
    }

    fn to_fields(&self) -> (r: Vec<Field>) {
        let mut out: Vec<Field> = Vec::new();
        wire::push_bytes(&mut out, 1, &self.id);
        assert(crate::views(out@) =~= wire::bytes_field(1, self@.id));
        wire::push_text(&mut out, 2, &self.name);
        wire::push_texts(&mut out, 3, &self.addresses);
        wire::push_number(&mut out, 4, self.compression as u64);
        wire::push_text(&mut out, 5, &self.cert_name);
        wire::push_number(&mut out, 6, self.max_sequence as u64);
        wire::push_flag(&mut out, 7, self.introducer);
        wire::push_number(&mut out, 8, self.index_id);
        wire::push_flag(&mut out, 9, self.skip_introduction_removals);
        wire::push_bytes(&mut out, 10, &self.encryption_password_token);
        out
    }

    proof fn sent_is_sendable(v: DeviceView) {
        broadcast use wire::group_sendable;

    }
}

impl Faithful for Device {
    open spec fn levels() -> nat {
        0
    }

    #[verifier::rlimit(80)]
    proof fn merged_back(v: DeviceView, depth: nat) {
        let m0 = Self::initial();
        let s1 = wire::bytes_field(1, v.id);
        let m1 = DeviceView { id: v.id, ..m0 };
        assert(v.id.len() == 0 ==> v.id =~= Seq::empty());
        let p1 = s1;
        wire::lemma_at_most_one::<Self>(m0, s1, m1, depth);
        let s2 = wire::text_field(2, v.name);
        let m2 = DeviceView { name: v.name, ..m1 };
        wire::lemma_text_back(v.name);
        let p2 = p1 + s2;
        wire::lemma_at_most_one::<Self>(m1, s2, m2, depth);
        wire::lemma_then::<Self>(m0, p1, m1, s2, m2, depth);
        let s3 = wire::text_fields(3, v.addresses);
        let m3 = DeviceView { addresses: v.addresses, ..m2 };
        let p3 = p2 + s3;
        let put3 = |xs: Seq<Seq<char>>| DeviceView { addresses: xs, ..m2 };
        assert forall|pre: Seq<Seq<char>>, j: int| 0 <= j < v.addresses.len() implies #[trigger] Self::merged(
            put3(pre),
            s3[j],
            depth,
        ) == Some(put3(pre.push(v.addresses[j]))) by {
            wire::lemma_text_back(v.addresses[j]);
        }
        wire::lemma_repeated::<Self, Seq<char>>(put3, Seq::empty(), v.addresses, s3, depth);
        assert(Seq::<Seq<char>>::empty() + v.addresses =~= v.addresses);
        assert(put3(Seq::empty()) == m2);
        wire::lemma_then::<Self>(m0, p2, m2, s3, m3, depth);
        let s4 = wire::number_field(4, v.compression as u64);
        let m4 = DeviceView { compression: v.compression, ..m3 };
        wire::lemma_number_back(v.compression, 0, 0);
        let p4 = p3 + s4;
        wire::lemma_at_most_one::<Self>(m3, s4, m4, depth);
        wire::lemma_then::<Self>(m0, p3, m3, s4, m4, depth);
        let s5 = wire::text_field(5, v.cert_name);
        let m5 = DeviceView { cert_name: v.cert_name, ..m4 };
        wire::lemma_text_back(v.cert_name);
        let p5 = p4 + s5;
        wire::lemma_at_most_one::<Self>(m4, s5, m5, depth);
        wire::lemma_then::<Self>(m0, p4, m4, s5, m5, depth);
        let s6 = wire::number_field(6, v.max_sequence as u64);
        let m6 = DeviceView { max_sequence: v.max_sequence, ..m5 };
        wire::lemma_number_back(0, v.max_sequence, 0);
        let p6 = p5 + s6;
        wire::lemma_at_most_one::<Self>(m5, s6, m6, depth);
        wire::lemma_then::<Self>(m0, p5, m5, s6, m6, depth);
        let s7 = wire::number_field(7, wire::flag(v.introducer));
        let m7 = DeviceView { introducer: v.introducer, ..m6 };
        let p7 = p6 + s7;
        wire::lemma_at_most_one::<Self>(m6, s7, m7, depth);
        wire::lemma_then::<Self>(m0, p6, m6, s7, m7, depth);
        let s8 = wire::number_field(8, v.index_id);
        let m8 = DeviceView { index_id: v.index_id, ..m7 };
        let p8 = p7 + s8;
        wire::lemma_at_most_one::<Self>(m7, s8, m8, depth);
        wire::lemma_then::<Self>(m0, p7, m7, s8, m8, depth);
        let s9 = wire::number_field(9, wire::flag(v.skip_introduction_removals));
        let m9 = DeviceView { skip_introduction_removals: v.skip_introduction_removals, ..m8 };
        let p9 = p8 + s9;
        wire::lemma_at_most_one::<Self>(m8, s9, m9, depth);
        wire::lemma_then::<Self>(m0, p8, m8, s9, m9, depth);
        let s10 = wire::bytes_field(10, v.encryption_password_token);
        let m10 = DeviceView { encryption_password_token: v.encryption_password_token, ..m9 };
        assert(v.encryption_password_token.len() == 0 ==> v.encryption_password_token =~= Seq::empty());
        let p10 = p9 + s10;
        wire::lemma_at_most_one::<Self>(m9, s10, m10, depth);
        wire::lemma_then::<Self>(m0, p9, m9, s10, m10, depth);
        assert(m10 =~= v);
    }
}

/// A shared folder.
#[derive(Debug, PartialEq)]
pub struct Folder {
    pub id: String,
    pub label: String,
    pub read_only: bool,
    pub ignore_permissions: bool,
    pub ignore_delete: bool,
    pub disable_temp_indexes: bool,
    pub paused: bool,
    pub devices: Vec<Device>,
}

#[verifier::ext_equal]
pub struct FolderView {
    pub id: Seq<char>,
    pub label: Seq<char>,
    pub read_only: bool,
    pub ignore_permissions: bool,
    pub ignore_delete: bool,
    pub disable_temp_indexes: bool,
    pub paused: bool,
    pub devices: Seq<DeviceView>,
}

impl View for Folder {
    type V = FolderView;

    open spec fn view(&self) -> FolderView {
        FolderView {
            id: self.id@,
            label: self.label@,
            read_only: self.read_only,
            ignore_permissions: self.ignore_permissions,
            ignore_delete: self.ignore_delete,
            disable_temp_indexes: self.disable_temp_indexes,
            paused: self.paused,
            devices: crate::views(self.devices@),
        }
    }
}

impl Clone for Folder {
    fn clone(&self) -> (r: Self)
        ensures
            r@ == self@,
    {
        let r = Folder {
            id: self.id.clone(),
            label: self.label.clone(),
            read_only: self.read_only,
            ignore_permissions: self.ignore_permissions,
            ignore_delete: self.ignore_delete,
            disable_temp_indexes: self.disable_temp_indexes,
            paused: self.paused,
            devices: self.devices.clone(),
        };
        assert(crate::views(r.devices@) =~= crate::views(self.devices@));
        r
    }
}

impl Message for Folder {
    open spec fn initial() -> FolderView {
        FolderView {
            id: Seq::empty(),
            label: Seq::empty(),
            read_only: false,
            ignore_permissions: false,
            ignore_delete: false,
            disable_temp_indexes: false,
            paused: false,
            devices: Seq::empty(),
        }
    }

    open spec fn merged(v: FolderView, field: FieldView, depth: nat) -> Option<FolderView> {
        if field.tag == 1 {
            match wire::as_text(field.value) {
                None => None,
                Some(x) => Some(FolderView { id: x, ..v }),
            }
        } else if field.tag == 2 {
            match wire::as_text(field.value) {
                None => None,
                Some(x) => Some(FolderView { label: x, ..v }),
            }
        } else if field.tag == 3 {
            match wire::as_number(field.value) {
                None => None,
                Some(x) => Some(FolderView { read_only: x != 0, ..v }),
            }
        } else if field.tag == 4 {
            match wire::as_number(field.value) {
                None => None,
                Some(x) => Some(FolderView { ignore_permissions: x != 0, ..v }),
            }
        } else if field.tag == 5 {
            match wire::as_number(field.value) {
                None => None,
                Some(x) => Some(FolderView { ignore_delete: x != 0, ..v }),
            }
        } else if field.tag == 6 {
            match wire::as_number(field.value) {
                None => None,
                Some(x) => Some(FolderView { disable_temp_indexes: x != 0, ..v }),
            }
        } else if field.tag == 7 {
            match wire::as_number(field.value) {
                None => None,
                Some(x) => Some(FolderView { paused: x != 0, ..v }),
            }
        } else if field.tag == 16 {
            match wire::nested::<Device>(Device::initial(), field.value, depth) {
                None => None,
                Some(x) => Some(FolderView { devices: v.devices.push(x), ..v }),
            }
        } else {
            Some(v)
        }
    }

    open spec fn sent(v: FolderView) -> Seq<FieldView> {
        wire::text_field(1, v.id)
            + wire::text_field(2, v.label)
            + wire::number_field(3, wire::flag(v.read_only))
            + wire::number_field(4, wire::flag(v.ignore_permissions))
            + wire::number_field(5, wire::flag(v.ignore_delete))
            + wire::number_field(6, wire::flag(v.disable_temp_indexes))
            + wire::number_field(7, wire::flag(v.paused))
            + wire::message_fields::<Device>(16, v.devices)
    }

    fn empty() -> (r: Self) {
        let r = Folder {
            id: String::new(),
            label: String::new(),
            read_only: false,
            ignore_permissions: false,
            ignore_delete: false,
            disable_temp_indexes: false,
            paused: false,
            devices: Vec::new(),
        };
        assert(r.id@ =~= Seq::empty());
        assert(r.label@ =~= Seq::empty());
        assert(crate::views(r.devices@) =~= Seq::empty());
        r
    }

    fn merge(&mut self, field: Field, depth: u32) -> (r: Result<(), DecodeError>) {
        match field.tag {
            1 => {
                self.id = field.value.into_text()?;
            },
            2 => {
                self.label = field.value.into_text()?;
            },
            3 => {
                self.read_only = field.value.into_number()? != 0;
            },
            4 => {
                self.ignore_permissions = field.value.into_number()? != 0;
            },
            5 => {
                self.ignore_delete = field.value.into_number()? != 0;
            },
            6 => {
                self.disable_temp_indexes = field.value.into_number()? != 0;
            },
            7 => {
                self.paused = field.value.into_number()? != 0;
            },
            16 => {
                let mut x = Device::empty();
                wire::merge_nested(&mut x, field.value, depth)?;
                proof {
                    crate::lemma_views_push(self.devices@, x);
                }
                self.devices.push(x);
            },
            _ => {},
        }
        Ok(())
    }

    fn to_fields(&self) -> (r: Vec<Field>) {
        let mut out: Vec<Field> = Vec::new();
        wire::push_text(&mut out, 1, &self.id);
        assert(crate::views(out@) =~= wire::text_field(1, self@.id));
        wire::push_text(&mut out, 2, &self.label);
        wire::push_flag(&mut out, 3, self.read_only);
        wire::push_flag(&mut out, 4, self.ignore_permissions);
        wire::push_flag(&mut out, 5, self.ignore_delete);
        wire::push_flag(&mut out, 6, self.disable_temp_indexes);
        wire::push_flag(&mut out, 7, self.paused);
        wire::push_messages(&mut out, 16, &self.devices);
        out
    }

    proof fn sent_is_sendable(v: FolderView) {
        broadcast use wire::group_sendable;

    }
}

impl Faithful for Folder {
    open spec fn levels() -> nat {
        1
    }

    #[verifier::rlimit(80)]
    proof fn merged_back(v: FolderView, depth: nat) {
        let m0 = Self::initial();
        let all = Self::sent(v);
        let s1 = wire::text_field(1, v.id);
        let m1 = FolderView { id: v.id, ..m0 };
        wire::lemma_text_back(v.id);
        let p1 = s1;
        wire::lemma_at_most_one::<Self>(m0, s1, m1, depth);
        let s2 = wire::text_field(2, v.label);
        let m2 = FolderView { label: v.label, ..m1 };
        wire::lemma_text_back(v.label);
        let p2 = p1 + s2;
        wire::lemma_at_most_one::<Self>(m1, s2, m2, depth);
        wire::lemma_then::<Self>(m0, p1, m1, s2, m2, depth);
        let s3 = wire::number_field(3, wire::flag(v.read_only));
        let m3 = FolderView { read_only: v.read_only, ..m2 };
        let p3 = p2 + s3;
        wire::lemma_at_most_one::<Self>(m2, s3, m3, depth);
        wire::lemma_then::<Self>(m0, p2, m2, s3, m3, depth);
        let s4 = wire::number_field(4, wire::flag(v.ignore_permissions));
        let m4 = FolderView { ignore_permissions: v.ignore_permissions, ..m3 };
        let p4 = p3 + s4;
        wire::lemma_at_most_one::<Self>(m3, s4, m4, depth);
        wire::lemma_then::<Self>(m0, p3, m3, s4, m4, depth);
        let s5 = wire::number_field(5, wire::flag(v.ignore_delete));
        let m5 = FolderView { ignore_delete: v.ignore_delete, ..m4 };
        let p5 = p4 + s5;
        wire::lemma_at_most_one::<Self>(m4, s5, m5, depth);
        wire::lemma_then::<Self>(m0, p4, m4, s5, m5, depth);
        let s6 = wire::number_field(6, wire::flag(v.disable_temp_indexes));
        let m6 = FolderView { disable_temp_indexes: v.disable_temp_indexes, ..m5 };
        let p6 = p5 + s6;
        wire::lemma_at_most_one::<Self>(m5, s6, m6, depth);
        wire::lemma_then::<Self>(m0, p5, m5, s6, m6, depth);
        let s7 = wire::number_field(7, wire::flag(v.paused));
        let m7 = FolderView { paused: v.paused, ..m6 };
        let p7 = p6 + s7;
        wire::lemma_at_most_one::<Self>(m6, s7, m7, depth);
        wire::lemma_then::<Self>(m0, p6, m6, s7, m7, depth);
        let s8 = wire::message_fields::<Device>(16, v.devices);
        let m8 = FolderView { devices: v.devices, ..m7 };
        let p8 = p7 + s8;
        let put8 = |xs: Seq<DeviceView>| FolderView { devices: xs, ..m7 };
        assert forall|pre: Seq<DeviceView>, j: int| 0 <= j < v.devices.len() implies #[trigger] Self::merged(
            put8(pre),
            s8[j],
            depth,
        ) == Some(put8(pre.push(v.devices[j]))) by {
            let at: int = p7.len() + j;
            assert(all[at] == s8[j]);
            wire::lemma_field_fits(all, at);
            wire::lemma_encoded_round_trip::<Device>(v.devices[j], (depth - 1) as nat);
        }
        wire::lemma_repeated::<Self, DeviceView>(put8, Seq::empty(), v.devices, s8, depth);
        assert(Seq::<DeviceView>::empty() + v.devices =~= v.devices);
        assert(put8(Seq::empty()) == m7);
        wire::lemma_then::<Self>(m0, p7, m7, s8, m8, depth);
        assert(m8 =~= v);
    }
}

/// The folders that a device shares.
#[derive(Debug, PartialEq)]
pub struct ClusterConfig {
    pub folders: Vec<Folder>,
}

#[verifier::ext_equal]
pub struct ClusterConfigView {
    pub folders: Seq<FolderView>,
}

impl View for ClusterConfig {
    type V = ClusterConfigView;

    open spec fn view(&self) -> ClusterConfigView {
        ClusterConfigView {
            folders: crate::views(self.folders@),
        }
    }
}

impl Clone for ClusterConfig {
    fn clone(&self) -> (r: Self)
        ensures
            r@ == self@,
    {
        let r = ClusterConfig {
            folders: self.folders.clone(),
        };
        assert(crate::views(r.folders@) =~= crate::views(self.folders@));
        r
    }
}

impl Message for ClusterConfig {
    open spec fn initial() -> ClusterConfigView {
        ClusterConfigView {
            folders: Seq::empty(),
        }
    }

    open spec fn merged(v: ClusterConfigView, field: FieldView, depth: nat) -> Option<ClusterConfigView> {
        if field.tag == 1 {
            match wire::nested::<Folder>(Folder::initial(), field.value, depth) {
                None => None,
                Some(x) => Some(ClusterConfigView { folders: v.folders.push(x) }),
            }
        } else {
            Some(v)
        }
    }

    open spec fn sent(v: ClusterConfigView) -> Seq<FieldView> {
        wire::message_fields::<Folder>(1, v.folders)
    }

    fn empty() -> (r: Self) {
        let r = ClusterConfig {
            folders: Vec::new(),
        };
        assert(crate::views(r.folders@) =~= Seq::empty());
        r
    }

    fn merge(&mut self, field: Field, depth: u32) -> (r: Result<(), DecodeError>) {
        match field.tag {
            1 => {
                let mut x = Folder::empty();
                wire::merge_nested(&mut x, field.value, depth)?;
                proof {
                    crate::lemma_views_push(self.folders@, x);
                }
                self.folders.push(x);
            },
            _ => {},
        }
        Ok(())
    }

    fn to_fields(&self) -> (r: Vec<Field>) {
        let mut out: Vec<Field> = Vec::new();
        wire::push_messages(&mut out, 1, &self.folders);
        assert(crate::views(out@) =~= wire::message_fields::<Folder>(1, self@.folders));
        out
    }

    proof fn sent_is_sendable(v: ClusterConfigView) {
        broadcast use wire::group_sendable;

    }
}

impl Faithful for ClusterConfig {
    open spec fn levels() -> nat {
        2
    }

    proof fn merged_back(v: ClusterConfigView, depth: nat) {
        let m0 = Self::initial();
        let all = Self::sent(v);
        let s1 = wire::message_fields::<Folder>(1, v.folders);
        let m1 = ClusterConfigView { folders: v.folders };
        let p1 = s1;
        let put1 = |xs: Seq<FolderView>| ClusterConfigView { folders: xs };
        assert forall|pre: Seq<FolderView>, j: int| 0 <= j < v.folders.len() implies #[trigger] Self::merged(
            put1(pre),
            s1[j],
            depth,
        ) == Some(put1(pre.push(v.folders[j]))) by {
            let at: int = j;
            assert(all[at] == s1[j]);
            wire::lemma_field_fits(all, at);
            wire::lemma_encoded_round_trip::<Folder>(v.folders[j], (depth - 1) as nat);
        }
        wire::lemma_repeated::<Self, FolderView>(put1, Seq::empty(), v.folders, s1, depth);
        assert(Seq::<FolderView>::empty() + v.folders =~= v.folders);
        assert(put1(Seq::empty()) == m0);
        assert(m1 =~= v);
    }
}

} // verus!
