//! Files, their versions and blocks, and the indices that list them.

use vstd::prelude::*;
use crate::wire;
use crate::wire::{DecodeError, Faithful, Field, FieldView, Message};

verus! {

/// How many changes a device made to a file.
#[derive(Debug, PartialEq)]
pub struct Counter {
    /// The short id of the device.
    pub id: u64,
    pub value: u64,
}

#[verifier::ext_equal]
pub struct CounterView {
    pub id: u64,
    pub value: u64,
}

impl View for Counter {
    type V = CounterView;

    open spec fn view(&self) -> CounterView {
        CounterView {
            id: self.id,
            value: self.value,
        }
    }
}

impl Clone for Counter {
    fn clone(&self) -> (r: Self)
        ensures
            r@ == self@,
    {
        Counter {
            id: self.id,
            value: self.value,
        }
    }
}

impl Message for Counter {
    open spec fn initial() -> CounterView {
        CounterView {
            id: 0,
            value: 0,
        }
    }

    open spec fn merged(v: CounterView, field: FieldView, depth: nat) -> Option<CounterView> {
        if field.tag == 1 {
            match wire::as_number(field.value) {
                None => None,
                Some(x) => Some(CounterView { id: x, ..v }),
            }
        } else if field.tag == 2 {
            match wire::as_number(field.value) {
                None => None,
                Some(x) => Some(CounterView { value: x, ..v }),
            }
        } else {
            Some(v)
        }
    }

    open spec fn sent(v: CounterView) -> Seq<FieldView> {
        wire::number_field(1, v.id)
            + wire::number_field(2, v.value)
    }

    fn empty() -> (r: Self) {
        Counter {
            id: 0,
            value: 0,
        }
    }

    fn merge(&mut self, field: Field, depth: u32) -> (r: Result<(), DecodeError>) {
        match field.tag {
            1 => {
                self.id = field.value.into_number()?;
            },
            2 => {
                self.value = field.value.into_number()?;
            },
            _ => {},
        }
        Ok(())
    }

    fn to_fields(&self) -> (r: Vec<Field>) {
        let mut out: Vec<Field> = Vec::new();
        wire::push_number(&mut out, 1, self.id);
        assert(crate::views(out@) =~= wire::number_field(1, self@.id));
        wire::push_number(&mut out, 2, self.value);
        out
    }

    proof fn sent_is_sendable(v: CounterView) {
        broadcast use wire::group_sendable;

    }
}

impl Faithful for Counter {
    open spec fn levels() -> nat {
        0
    }

    proof fn merged_back(v: CounterView, depth: nat) {
        let m0 = Self::initial();
        let s1 = wire::number_field(1, v.id);
        let m1 = CounterView { id: v.id, ..m0 };
        let p1 = s1;
        wire::lemma_at_most_one::<Self>(m0, s1, m1, depth);
        let s2 = wire::number_field(2, v.value);
        let m2 = CounterView { value: v.value, ..m1 };
        let p2 = p1 + s2;
        wire::lemma_at_most_one::<Self>(m1, s2, m2, depth);
        wire::lemma_then::<Self>(m0, p1, m1, s2, m2, depth);
        assert(m2 =~= v);
    }
}

/// The version of a file.
#[derive(Debug, PartialEq)]
pub struct Vector {
    pub counters: Vec<Counter>,
}

#[verifier::ext_equal]
pub struct VectorView {
    pub counters: Seq<CounterView>,
}

impl View for Vector {
    type V = VectorView;

    open spec fn view(&self) -> VectorView {
        VectorView {
            counters: crate::views(self.counters@),
        }
    }
}

impl Clone for Vector {
    fn clone(&self) -> (r: Self)
        ensures
            r@ == self@,
    {
        let r = Vector {
            counters: self.counters.clone(),
        };
        assert(crate::views(r.counters@) =~= crate::views(self.counters@));
        r
    }
}

impl Message for Vector {
    open spec fn initial() -> VectorView {
        VectorView {
            counters: Seq::empty(),
        }
    }

    open spec fn merged(v: VectorView, field: FieldView, depth: nat) -> Option<VectorView> {
        if field.tag == 1 {
            match wire::nested::<Counter>(Counter::initial(), field.value, depth) {
                None => None,
                Some(x) => Some(VectorView { counters: v.counters.push(x) }),
            }
        } else {
            Some(v)
        }
    }

    open spec fn sent(v: VectorView) -> Seq<FieldView> {
        wire::message_fields::<Counter>(1, v.counters)
    }

    fn empty() -> (r: Self) {
        let r = Vector {
            counters: Vec::new(),
        };
        assert(crate::views(r.counters@) =~= Seq::empty());
        r
    }

    fn merge(&mut self, field: Field, depth: u32) -> (r: Result<(), DecodeError>) {
        match field.tag {
            1 => {
                let mut x = Counter::empty();
                wire::merge_nested(&mut x, field.value, depth)?;
                proof {
                    crate::lemma_views_push(self.counters@, x);
                }
                self.counters.push(x);
            },
            _ => {},
        }
        Ok(())
    }

    fn to_fields(&self) -> (r: Vec<Field>) {
        let mut out: Vec<Field> = Vec::new();
        wire::push_messages(&mut out, 1, &self.counters);
        assert(crate::views(out@) =~= wire::message_fields::<Counter>(1, self@.counters));
        out
    }

    proof fn sent_is_sendable(v: VectorView) {
        broadcast use wire::group_sendable;

    }
}

impl Faithful for Vector {
    open spec fn levels() -> nat {
        1
    }

    proof fn merged_back(v: VectorView, depth: nat) {
        let m0 = Self::initial();
        let all = Self::sent(v);
        let s1 = wire::message_fields::<Counter>(1, v.counters);
        let m1 = VectorView { counters: v.counters };
        let p1 = s1;
        let put1 = |xs: Seq<CounterView>| VectorView { counters: xs };
        assert forall|pre: Seq<CounterView>, j: int| 0 <= j < v.counters.len() implies #[trigger] Self::merged(
            put1(pre),
            s1[j],
            depth,
        ) == Some(put1(pre.push(v.counters[j]))) by {
            let at: int = j;
            assert(all[at] == s1[j]);
            wire::lemma_field_fits(all, at);
            wire::lemma_encoded_round_trip::<Counter>(v.counters[j], (depth - 1) as nat);
        }
        wire::lemma_repeated::<Self, CounterView>(put1, Seq::empty(), v.counters, s1, depth);
        assert(Seq::<CounterView>::empty() + v.counters =~= v.counters);
        assert(put1(Seq::empty()) == m0);
        assert(m1 =~= v);
    }
}

/// A block of a file.
#[derive(Debug, PartialEq)]
pub struct BlockInfo {
    pub offset: i64,
    pub size: i32,
    /// The SHA-256 digest of the data.
    pub hash: Vec<u8>,
    pub weak_hash: u32,
}

#[verifier::ext_equal]
pub struct BlockInfoView {
    pub offset: i64,
    pub size: i32,
    pub hash: Seq<u8>,
    pub weak_hash: u32,
}

impl View for BlockInfo {
    type V = BlockInfoView;

    open spec fn view(&self) -> BlockInfoView {
        BlockInfoView {
            offset: self.offset,
            size: self.size,
            hash: self.hash@,
            weak_hash: self.weak_hash,
        }
    }
}

impl Clone for BlockInfo {
    fn clone(&self) -> (r: Self)
        ensures
            r@ == self@,
    {
        let r = BlockInfo {
            offset: self.offset,
            size: self.size,
            hash: self.hash.clone(),
            weak_hash: self.weak_hash,
        };
        assert(r.hash@ =~= self.hash@);
        r
    }
}

impl Message for BlockInfo {
    open spec fn initial() -> BlockInfoView {
        BlockInfoView {
            offset: 0,
            size: 0,
            hash: Seq::empty(),
            weak_hash: 0,
        }
    }

    open spec fn merged(v: BlockInfoView, field: FieldView, depth: nat) -> Option<BlockInfoView> {
        if field.tag == 1 {
            match wire::as_number(field.value) {
                None => None,
                Some(x) => Some(BlockInfoView { offset: x as i64, ..v }),
            }
        } else if field.tag == 2 {
            match wire::as_number(field.value) {
                None => None,
                Some(x) => Some(BlockInfoView { size: x as i32, ..v }),
            }
        } else if field.tag == 3 {
            match wire::as_bytes(field.value) {
                None => None,
                Some(x) => Some(BlockInfoView { hash: x, ..v }),
            }
        } else if field.tag == 4 {
            match wire::as_number(field.value) {
                None => None,
                Some(x) => Some(BlockInfoView { weak_hash: x as u32, ..v }),
            }
        } else {
            Some(v)
        }
    }

    open spec fn sent(v: BlockInfoView) -> Seq<FieldView> {
        wire::number_field(1, v.offset as u64)
            + wire::number_field(2, v.size as u64)
            + wire::bytes_field(3, v.hash)
            + wire::number_field(4, v.weak_hash as u64)
    }

    fn empty() -> (r: Self) {
        let r = BlockInfo {
            offset: 0,
            size: 0,
            hash: Vec::new(),
            weak_hash: 0,
        };
        assert(r.hash@ =~= Seq::empty());
        r
    }

    fn merge(&mut self, field: Field, depth: u32) -> (r: Result<(), DecodeError>) {
        match field.tag {
            1 => {
                self.offset = field.value.into_number()? as i64;
            },
            2 => {
                self.size = field.value.into_number()? as i32;
            },
            3 => {
                self.hash = field.value.into_bytes()?;
            },
            4 => {
                self.weak_hash = field.value.into_number()? as u32;
            },
            _ => {},
        }
        Ok(())
    }

    fn to_fields(&self) -> (r: Vec<Field>) {
        let mut out: Vec<Field> = Vec::new();
        wire::push_number(&mut out, 1, self.offset as u64);
        assert(crate::views(out@) =~= wire::number_field(1, self@.offset as u64));
        wire::push_number(&mut out, 2, self.size as u64);
        wire::push_bytes(&mut out, 3, &self.hash);
        wire::push_number(&mut out, 4, self.weak_hash as u64);
        out
    }

    proof fn sent_is_sendable(v: BlockInfoView) {
        broadcast use wire::group_sendable;

    }
}

impl Faithful for BlockInfo {
    open spec fn levels() -> nat {
        0
    }

    proof fn merged_back(v: BlockInfoView, depth: nat) {
        let m0 = Self::initial();
        let s1 = wire::number_field(1, v.offset as u64);
        let m1 = BlockInfoView { offset: v.offset, ..m0 };
        wire::lemma_number_back(0, v.offset, 0);
        let p1 = s1;
        wire::lemma_at_most_one::<Self>(m0, s1, m1, depth);
        let s2 = wire::number_field(2, v.size as u64);
        let m2 = BlockInfoView { size: v.size, ..m1 };
        wire::lemma_number_back(v.size, 0, 0);
        let p2 = p1 + s2;
        wire::lemma_at_most_one::<Self>(m1, s2, m2, depth);
        wire::lemma_then::<Self>(m0, p1, m1, s2, m2, depth);
        let s3 = wire::bytes_field(3, v.hash);
        let m3 = BlockInfoView { hash: v.hash, ..m2 };
        assert(v.hash.len() == 0 ==> v.hash =~= Seq::empty());
        let p3 = p2 + s3;
        wire::lemma_at_most_one::<Self>(m2, s3, m3, depth);
        wire::lemma_then::<Self>(m0, p2, m2, s3, m3, depth);
        let s4 = wire::number_field(4, v.weak_hash as u64);
        let m4 = BlockInfoView { weak_hash: v.weak_hash, ..m3 };
        wire::lemma_number_back(0, 0, v.weak_hash);
        let p4 = p3 + s4;
        wire::lemma_at_most_one::<Self>(m3, s4, m4, depth);
        wire::lemma_then::<Self>(m0, p3, m3, s4, m4, depth);
        assert(m4 =~= v);
    }
}

/// A file, folder or link in an index.
#[derive(Debug, PartialEq)]
pub struct FileInfo {
    pub name: String,
    /// A number of `FileInfoType`.
    pub file_type: i32,
    pub size: i64,
    pub permissions: u32,
    pub modified_s: i64,
    pub deleted: bool,
    pub invalid: bool,
    pub no_permissions: bool,
    pub version: Option<Vector>,
    pub sequence: i64,
    pub modified_ns: i32,
    /// The short id of the device that changed the file last.
    pub modified_by: u64,
    pub block_size: i32,
    pub blocks: Vec<BlockInfo>,
    pub symlink_target: String,
}

#[verifier::ext_equal]
pub struct FileInfoView {
    pub name: Seq<char>,
    pub file_type: i32,
    pub size: i64,
    pub permissions: u32,
    pub modified_s: i64,
    pub deleted: bool,
    pub invalid: bool,
    pub no_permissions: bool,
    pub version: Option<VectorView>,
    pub sequence: i64,
    pub modified_ns: i32,
    pub modified_by: u64,
    pub block_size: i32,
    pub blocks: Seq<BlockInfoView>,
    pub symlink_target: Seq<char>,
}

impl View for FileInfo {
    type V = FileInfoView;

    open spec fn view(&self) -> FileInfoView {
        FileInfoView {
            name: self.name@,
            file_type: self.file_type,
            size: self.size,
            permissions: self.permissions,
            modified_s: self.modified_s,
            deleted: self.deleted,
            invalid: self.invalid,
            no_permissions: self.no_permissions,
            version: wire::view_option(self.version),
            sequence: self.sequence,
            modified_ns: self.modified_ns,
            modified_by: self.modified_by,
            block_size: self.block_size,
            blocks: crate::views(self.blocks@),
            symlink_target: self.symlink_target@,
        }
    }
}

impl Clone for FileInfo {
    fn clone(&self) -> (r: Self)
        ensures
            r@ == self@,
    {
        let r = FileInfo {
            name: self.name.clone(),
            file_type: self.file_type,
            size: self.size,
            permissions: self.permissions,
            modified_s: self.modified_s,
            deleted: self.deleted,
            invalid: self.invalid,
            no_permissions: self.no_permissions,
            version: match &self.version {
                Some(x) => Some(x.clone()),
                None => None,
            },
            sequence: self.sequence,
            modified_ns: self.modified_ns,
            modified_by: self.modified_by,
            block_size: self.block_size,
            blocks: self.blocks.clone(),
            symlink_target: self.symlink_target.clone(),
        };
        assert(crate::views(r.blocks@) =~= crate::views(self.blocks@));
        r
    }
}

impl Message for FileInfo {
    open spec fn initial() -> FileInfoView {
        FileInfoView {
            name: Seq::empty(),
            file_type: 0,
            size: 0,
            permissions: 0,
            modified_s: 0,
            deleted: false,
            invalid: false,
            no_permissions: false,
            version: None,
            sequence: 0,
            modified_ns: 0,
            modified_by: 0,
            block_size: 0,
            blocks: Seq::empty(),
            symlink_target: Seq::empty(),
        }
    }

    open spec fn merged(v: FileInfoView, field: FieldView, depth: nat) -> Option<FileInfoView> {
        if field.tag == 1 {
            match wire::as_text(field.value) {
                None => None,
                Some(x) => Some(FileInfoView { name: x, ..v }),
            }
        } else if field.tag == 2 {
            match wire::as_number(field.value) {
                None => None,
                Some(x) => Some(FileInfoView { file_type: x as i32, ..v }),
            }
        } else if field.tag == 3 {
            match wire::as_number(field.value) {
                None => None,
                Some(x) => Some(FileInfoView { size: x as i64, ..v }),
            }
        } else if field.tag == 4 {
            match wire::as_number(field.value) {
                None => None,
                Some(x) => Some(FileInfoView { permissions: x as u32, ..v }),
            }
        } else if field.tag == 5 {
            match wire::as_number(field.value) {
                None => None,
                Some(x) => Some(FileInfoView { modified_s: x as i64, ..v }),
            }
        } else if field.tag == 6 {
            match wire::as_number(field.value) {
                None => None,
                Some(x) => Some(FileInfoView { deleted: x != 0, ..v }),
            }
        } else if field.tag == 7 {
            match wire::as_number(field.value) {
                None => None,
                Some(x) => Some(FileInfoView { invalid: x != 0, ..v }),
            }
        } else if field.tag == 8 {
            match wire::as_number(field.value) {
                None => None,
                Some(x) => Some(FileInfoView { no_permissions: x != 0, ..v }),
            }
        } else if field.tag == 9 {
            match wire::nested::<Vector>(
                match v.version {
                    Some(w) => w,
                    None => Vector::initial(),
                },
                field.value,
                depth,
            ) {
                None => None,
                Some(x) => Some(FileInfoView { version: Some(x), ..v }),
            }
        } else if field.tag == 10 {
            match wire::as_number(field.value) {
                None => None,
                Some(x) => Some(FileInfoView { sequence: x as i64, ..v }),
            }
        } else if field.tag == 11 {
            match wire::as_number(field.value) {
                None => None,
                Some(x) => Some(FileInfoView { modified_ns: x as i32, ..v }),
            }
        } else if field.tag == 12 {
            match wire::as_number(field.value) {
                None => None,
                Some(x) => Some(FileInfoView { modified_by: x, ..v }),
            }
        } else if field.tag == 13 {
            match wire::as_number(field.value) {
                None => None,
                Some(x) => Some(FileInfoView { block_size: x as i32, ..v }),
            }
        } else if field.tag == 16 {
            match wire::nested::<BlockInfo>(BlockInfo::initial(), field.value, depth) {
                None => None,
                Some(x) => Some(FileInfoView { blocks: v.blocks.push(x), ..v }),
            }
        } else if field.tag == 17 {
            match wire::as_text(field.value) {
                None => None,
                Some(x) => Some(FileInfoView { symlink_target: x, ..v }),
            }
        } else {
            Some(v)
        }
    }

    open spec fn sent(v: FileInfoView) -> Seq<FieldView> {
        wire::text_field(1, v.name)
            + wire::number_field(2, v.file_type as u64)
            + wire::number_field(3, v.size as u64)
            + wire::number_field(4, v.permissions as u64)
            + wire::number_field(5, v.modified_s as u64)
            + wire::number_field(6, wire::flag(v.deleted))
            + wire::number_field(7, wire::flag(v.invalid))
            + wire::number_field(8, wire::flag(v.no_permissions))
            + wire::message_field::<Vector>(9, v.version)
            + wire::number_field(10, v.sequence as u64)
            + wire::number_field(11, v.modified_ns as u64)
            + wire::number_field(12, v.modified_by)
            + wire::number_field(13, v.block_size as u64)
            + wire::message_fields::<BlockInfo>(16, v.blocks)
            + wire::text_field(17, v.symlink_target)
    }

    fn empty() -> (r: Self) {
        let r = FileInfo {
            name: String::new(),
            file_type: 0,
            size: 0,
            permissions: 0,
            modified_s: 0,
            deleted: false,
            invalid: false,
            no_permissions: false,
            version: None,
            sequence: 0,
            modified_ns: 0,
            modified_by: 0,
            block_size: 0,
            blocks: Vec::new(),
            symlink_target: String::new(),
        };
        assert(r.name@ =~= Seq::empty());
        assert(crate::views(r.blocks@) =~= Seq::empty());
        assert(r.symlink_target@ =~= Seq::empty());
        r
    }

    fn merge(&mut self, field: Field, depth: u32) -> (r: Result<(), DecodeError>) {
        match field.tag {
            1 => {
                self.name = field.value.into_text()?;
            },
            2 => {
                self.file_type = field.value.into_number()? as i32;
            },
            3 => {
                self.size = field.value.into_number()? as i64;
            },
            4 => {
                self.permissions = field.value.into_number()? as u32;
            },
            5 => {
                self.modified_s = field.value.into_number()? as i64;
            },
            6 => {
                self.deleted = field.value.into_number()? != 0;
            },
            7 => {
                self.invalid = field.value.into_number()? != 0;
            },
            8 => {
                self.no_permissions = field.value.into_number()? != 0;
            },
            9 => {
                let mut x = match self.version.take() {
                    Some(w) => w,
                    None => Vector::empty(),
                };
                wire::merge_nested(&mut x, field.value, depth)?;
                self.version = Some(x);
            },
            10 => {
                self.sequence = field.value.into_number()? as i64;
            },
            11 => {
                self.modified_ns = field.value.into_number()? as i32;
            },
            12 => {
                self.modified_by = field.value.into_number()?;
            },
            13 => {
                self.block_size = field.value.into_number()? as i32;
            },
            16 => {
                let mut x = BlockInfo::empty();
                wire::merge_nested(&mut x, field.value, depth)?;
                proof {
                    crate::lemma_views_push(self.blocks@, x);
                }
                self.blocks.push(x);
            },
            17 => {
                self.symlink_target = field.value.into_text()?;
            },
            _ => {},
        }
        Ok(())
    }

    fn to_fields(&self) -> (r: Vec<Field>) {
        let mut out: Vec<Field> = Vec::new();
        wire::push_text(&mut out, 1, &self.name);
        assert(crate::views(out@) =~= wire::text_field(1, self@.name));
        wire::push_number(&mut out, 2, self.file_type as u64);
        wire::push_number(&mut out, 3, self.size as u64);
        wire::push_number(&mut out, 4, self.permissions as u64);
        wire::push_number(&mut out, 5, self.modified_s as u64);
        wire::push_flag(&mut out, 6, self.deleted);
        wire::push_flag(&mut out, 7, self.invalid);
        wire::push_flag(&mut out, 8, self.no_permissions);
        wire::push_message(&mut out, 9, &self.version);
        wire::push_number(&mut out, 10, self.sequence as u64);
        wire::push_number(&mut out, 11, self.modified_ns as u64);
        wire::push_number(&mut out, 12, self.modified_by);
        wire::push_number(&mut out, 13, self.block_size as u64);
        wire::push_messages(&mut out, 16, &self.blocks);
        wire::push_text(&mut out, 17, &self.symlink_target);
        out
    }

    proof fn sent_is_sendable(v: FileInfoView) {
        broadcast use wire::group_sendable;

    }
}

impl Faithful for FileInfo {
    open spec fn levels() -> nat {
        2
    }

    #[verifier::rlimit(80)]
    proof fn merged_back(v: FileInfoView, depth: nat) {
        let m0 = Self::initial();
        let all = Self::sent(v);
        let s1 = wire::text_field(1, v.name);
        let m1 = FileInfoView { name: v.name, ..m0 };
        wire::lemma_text_back(v.name);
        let p1 = s1;
        wire::lemma_at_most_one::<Self>(m0, s1, m1, depth);
        let s2 = wire::number_field(2, v.file_type as u64);
        let m2 = FileInfoView { file_type: v.file_type, ..m1 };
        wire::lemma_number_back(v.file_type, 0, 0);
        let p2 = p1 + s2;
        wire::lemma_at_most_one::<Self>(m1, s2, m2, depth);
        wire::lemma_then::<Self>(m0, p1, m1, s2, m2, depth);
        let s3 = wire::number_field(3, v.size as u64);
        let m3 = FileInfoView { size: v.size, ..m2 };
        wire::lemma_number_back(0, v.size, 0);
        let p3 = p2 + s3;
        wire::lemma_at_most_one::<Self>(m2, s3, m3, depth);
        wire::lemma_then::<Self>(m0, p2, m2, s3, m3, depth);
        let s4 = wire::number_field(4, v.permissions as u64);
        let m4 = FileInfoView { permissions: v.permissions, ..m3 };
        wire::lemma_number_back(0, 0, v.permissions);
        let p4 = p3 + s4;
        wire::lemma_at_most_one::<Self>(m3, s4, m4, depth);
        wire::lemma_then::<Self>(m0, p3, m3, s4, m4, depth);
        let s5 = wire::number_field(5, v.modified_s as u64);
        let m5 = FileInfoView { modified_s: v.modified_s, ..m4 };
        wire::lemma_number_back(0, v.modified_s, 0);
        let p5 = p4 + s5;
        wire::lemma_at_most_one::<Self>(m4, s5, m5, depth);
        wire::lemma_then::<Self>(m0, p4, m4, s5, m5, depth);
        let s6 = wire::number_field(6, wire::flag(v.deleted));
        let m6 = FileInfoView { deleted: v.deleted, ..m5 };
        let p6 = p5 + s6;
        wire::lemma_at_most_one::<Self>(m5, s6, m6, depth);
        wire::lemma_then::<Self>(m0, p5, m5, s6, m6, depth);
        let s7 = wire::number_field(7, wire::flag(v.invalid));
        let m7 = FileInfoView { invalid: v.invalid, ..m6 };
        let p7 = p6 + s7;
        wire::lemma_at_most_one::<Self>(m6, s7, m7, depth);
        wire::lemma_then::<Self>(m0, p6, m6, s7, m7, depth);
        let s8 = wire::number_field(8, wire::flag(v.no_permissions));
        let m8 = FileInfoView { no_permissions: v.no_permissions, ..m7 };
        let p8 = p7 + s8;
        wire::lemma_at_most_one::<Self>(m7, s8, m8, depth);
        wire::lemma_then::<Self>(m0, p7, m7, s8, m8, depth);
        let s9 = wire::message_field::<Vector>(9, v.version);
        let m9 = FileInfoView { version: v.version, ..m8 };
        let p9 = p8 + s9;
        if let Some(x) = v.version {
            let at: int = p9.len() - 1;
            assert(all[at] == s9[0]);
            wire::lemma_field_fits(all, at);
            wire::lemma_encoded_round_trip::<Vector>(x, (depth - 1) as nat);
        }
        wire::lemma_at_most_one::<Self>(m8, s9, m9, depth);
        wire::lemma_then::<Self>(m0, p8, m8, s9, m9, depth);
        let s10 = wire::number_field(10, v.sequence as u64);
        let m10 = FileInfoView { sequence: v.sequence, ..m9 };
        wire::lemma_number_back(0, v.sequence, 0);
        let p10 = p9 + s10;
        wire::lemma_at_most_one::<Self>(m9, s10, m10, depth);
        wire::lemma_then::<Self>(m0, p9, m9, s10, m10, depth);
        let s11 = wire::number_field(11, v.modified_ns as u64);
        let m11 = FileInfoView { modified_ns: v.modified_ns, ..m10 };
        wire::lemma_number_back(v.modified_ns, 0, 0);
        let p11 = p10 + s11;
        wire::lemma_at_most_one::<Self>(m10, s11, m11, depth);
        wire::lemma_then::<Self>(m0, p10, m10, s11, m11, depth);
        let s12 = wire::number_field(12, v.modified_by);
        let m12 = FileInfoView { modified_by: v.modified_by, ..m11 };
        let p12 = p11 + s12;
        wire::lemma_at_most_one::<Self>(m11, s12, m12, depth);
        wire::lemma_then::<Self>(m0, p11, m11, s12, m12, depth);
        let s13 = wire::number_field(13, v.block_size as u64);
        let m13 = FileInfoView { block_size: v.block_size, ..m12 };
        wire::lemma_number_back(v.block_size, 0, 0);
        let p13 = p12 + s13;
        wire::lemma_at_most_one::<Self>(m12, s13, m13, depth);
        wire::lemma_then::<Self>(m0, p12, m12, s13, m13, depth);
        let s14 = wire::message_fields::<BlockInfo>(16, v.blocks);
        let m14 = FileInfoView { blocks: v.blocks, ..m13 };
        let p14 = p13 + s14;
        let put14 = |xs: Seq<BlockInfoView>| FileInfoView { blocks: xs, ..m13 };
        assert forall|pre: Seq<BlockInfoView>, j: int| 0 <= j < v.blocks.len() implies #[trigger] Self::merged(
            put14(pre),
            s14[j],
            depth,
        ) == Some(put14(pre.push(v.blocks[j]))) by {
            let at: int = p13.len() + j;
            assert(all[at] == s14[j]);
            wire::lemma_field_fits(all, at);
            wire::lemma_encoded_round_trip::<BlockInfo>(v.blocks[j], (depth - 1) as nat);
        }
        wire::lemma_repeated::<Self, BlockInfoView>(put14, Seq::empty(), v.blocks, s14, depth);
        assert(Seq::<BlockInfoView>::empty() + v.blocks =~= v.blocks);
        assert(put14(Seq::empty()) == m13);
        wire::lemma_then::<Self>(m0, p13, m13, s14, m14, depth);
        let s15 = wire::text_field(17, v.symlink_target);
        let m15 = FileInfoView { symlink_target: v.symlink_target, ..m14 };
        wire::lemma_text_back(v.symlink_target);
        let p15 = p14 + s15;
        wire::lemma_at_most_one::<Self>(m14, s15, m15, depth);
        wire::lemma_then::<Self>(m0, p14, m14, s15, m15, depth);
        assert(m15 =~= v);
    }
}

/// The files of a folder, in place of those sent before.
#[derive(Debug, PartialEq)]
pub struct Index {
    pub folder: String,
    pub files: Vec<FileInfo>,
}

#[verifier::ext_equal]
pub struct IndexView {
    pub folder: Seq<char>,
    pub files: Seq<FileInfoView>,
}

impl View for Index {
    type V = IndexView;

    open spec fn view(&self) -> IndexView {
        IndexView {
            folder: self.folder@,
            files: crate::views(self.files@),
        }
    }
}

impl Clone for Index {
    fn clone(&self) -> (r: Self)
        ensures
            r@ == self@,
    {
        let r = Index {
            folder: self.folder.clone(),
            files: self.files.clone(),
        };
        assert(crate::views(r.files@) =~= crate::views(self.files@));
        r
    }
}

impl Message for Index {
    open spec fn initial() -> IndexView {
        IndexView {
            folder: Seq::empty(),
            files: Seq::empty(),
        }
    }

    open spec fn merged(v: IndexView, field: FieldView, depth: nat) -> Option<IndexView> {
        if field.tag == 1 {
            match wire::as_text(field.value) {
                None => None,
                Some(x) => Some(IndexView { folder: x, ..v }),
            }
        } else if field.tag == 2 {
            match wire::nested::<FileInfo>(FileInfo::initial(), field.value, depth) {
                None => None,
                Some(x) => Some(IndexView { files: v.files.push(x), ..v }),
            }
        } else {
            Some(v)
        }
    }

    open spec fn sent(v: IndexView) -> Seq<FieldView> {
        wire::text_field(1, v.folder)
            + wire::message_fields::<FileInfo>(2, v.files)
    }

    fn empty() -> (r: Self) {
        let r = Index {
            folder: String::new(),
            files: Vec::new(),
        };
        assert(r.folder@ =~= Seq::empty());
        assert(crate::views(r.files@) =~= Seq::empty());
        r
    }

    fn merge(&mut self, field: Field, depth: u32) -> (r: Result<(), DecodeError>) {
        match field.tag {
            1 => {
                self.folder = field.value.into_text()?;
            },
            2 => {
                let mut x = FileInfo::empty();
                wire::merge_nested(&mut x, field.value, depth)?;
                proof {
                    crate::lemma_views_push(self.files@, x);
                }
                self.files.push(x);
            },
            _ => {},
        }
        Ok(())
    }

    fn to_fields(&self) -> (r: Vec<Field>) {
        let mut out: Vec<Field> = Vec::new();
        wire::push_text(&mut out, 1, &self.folder);
        assert(crate::views(out@) =~= wire::text_field(1, self@.folder));
        wire::push_messages(&mut out, 2, &self.files);
        out
    }

    proof fn sent_is_sendable(v: IndexView) {
        broadcast use wire::group_sendable;

    }
}

impl Faithful for Index {
    open spec fn levels() -> nat {
        3
    }

    proof fn merged_back(v: IndexView, depth: nat) {
        let m0 = Self::initial();
        let all = Self::sent(v);
        let s1 = wire::text_field(1, v.folder);
        let m1 = IndexView { folder: v.folder, ..m0 };
        wire::lemma_text_back(v.folder);
        let p1 = s1;
        wire::lemma_at_most_one::<Self>(m0, s1, m1, depth);
        let s2 = wire::message_fields::<FileInfo>(2, v.files);
        let m2 = IndexView { files: v.files, ..m1 };
        let p2 = p1 + s2;
        let put2 = |xs: Seq<FileInfoView>| IndexView { files: xs, ..m1 };
        assert forall|pre: Seq<FileInfoView>, j: int| 0 <= j < v.files.len() implies #[trigger] Self::merged(
            put2(pre),
            s2[j],
            depth,
        ) == Some(put2(pre.push(v.files[j]))) by {
            let at: int = p1.len() + j;
            assert(all[at] == s2[j]);
            wire::lemma_field_fits(all, at);
            wire::lemma_encoded_round_trip::<FileInfo>(v.files[j], (depth - 1) as nat);
        }
        wire::lemma_repeated::<Self, FileInfoView>(put2, Seq::empty(), v.files, s2, depth);
        assert(Seq::<FileInfoView>::empty() + v.files =~= v.files);
        assert(put2(Seq::empty()) == m1);
        wire::lemma_then::<Self>(m0, p1, m1, s2, m2, depth);
        assert(m2 =~= v);
    }
}

/// Files of a folder that changed.
#[derive(Debug, PartialEq)]
pub struct IndexUpdate {
    pub folder: String,
    pub files: Vec<FileInfo>,
}

#[verifier::ext_equal]
pub struct IndexUpdateView {
    pub folder: Seq<char>,
    pub files: Seq<FileInfoView>,
}

impl View for IndexUpdate {
    type V = IndexUpdateView;

    open spec fn view(&self) -> IndexUpdateView {
        IndexUpdateView {
            folder: self.folder@,
            files: crate::views(self.files@),
        }
    }
}

impl Clone for IndexUpdate {
    fn clone(&self) -> (r: Self)
        ensures
            r@ == self@,
    {
        let r = IndexUpdate {
            folder: self.folder.clone(),
            files: self.files.clone(),
        };
        assert(crate::views(r.files@) =~= crate::views(self.files@));
        r
    }
}

impl Message for IndexUpdate {
    open spec fn initial() -> IndexUpdateView {
        IndexUpdateView {
            folder: Seq::empty(),
            files: Seq::empty(),
        }
    }

    open spec fn merged(v: IndexUpdateView, field: FieldView, depth: nat) -> Option<IndexUpdateView> {
        if field.tag == 1 {
            match wire::as_text(field.value) {
                None => None,
                Some(x) => Some(IndexUpdateView { folder: x, ..v }),
            }
        } else if field.tag == 2 {
            match wire::nested::<FileInfo>(FileInfo::initial(), field.value, depth) {
                None => None,
                Some(x) => Some(IndexUpdateView { files: v.files.push(x), ..v }),
            }
        } else {
            Some(v)
        }
    }

    open spec fn sent(v: IndexUpdateView) -> Seq<FieldView> {
        wire::text_field(1, v.folder)
            + wire::message_fields::<FileInfo>(2, v.files)
    }

    fn empty() -> (r: Self) {
        let r = IndexUpdate {
            folder: String::new(),
            files: Vec::new(),
        };
        assert(r.folder@ =~= Seq::empty());
        assert(crate::views(r.files@) =~= Seq::empty());
        r
    }

    fn merge(&mut self, field: Field, depth: u32) -> (r: Result<(), DecodeError>) {
        match field.tag {
            1 => {
                self.folder = field.value.into_text()?;
            },
            2 => {
                let mut x = FileInfo::empty();
                wire::merge_nested(&mut x, field.value, depth)?;
                proof {
                    crate::lemma_views_push(self.files@, x);
                }
                self.files.push(x);
            },
            _ => {},
        }
        Ok(())
    }

    fn to_fields(&self) -> (r: Vec<Field>) {
        let mut out: Vec<Field> = Vec::new();
        wire::push_text(&mut out, 1, &self.folder);
        assert(crate::views(out@) =~= wire::text_field(1, self@.folder));
        wire::push_messages(&mut out, 2, &self.files);
        out
    }

    proof fn sent_is_sendable(v: IndexUpdateView) {
        broadcast use wire::group_sendable;

    }
}

impl Faithful for IndexUpdate {
    open spec fn levels() -> nat {
        3
    }

    proof fn merged_back(v: IndexUpdateView, depth: nat) {
        let m0 = Self::initial();
        let all = Self::sent(v);
        let s1 = wire::text_field(1, v.folder);
        let m1 = IndexUpdateView { folder: v.folder, ..m0 };
        wire::lemma_text_back(v.folder);
        let p1 = s1;
        wire::lemma_at_most_one::<Self>(m0, s1, m1, depth);
        let s2 = wire::message_fields::<FileInfo>(2, v.files);
        let m2 = IndexUpdateView { files: v.files, ..m1 };
        let p2 = p1 + s2;
        let put2 = |xs: Seq<FileInfoView>| IndexUpdateView { files: xs, ..m1 };
        assert forall|pre: Seq<FileInfoView>, j: int| 0 <= j < v.files.len() implies #[trigger] Self::merged(
            put2(pre),
            s2[j],
            depth,
        ) == Some(put2(pre.push(v.files[j]))) by {
            let at: int = p1.len() + j;
            assert(all[at] == s2[j]);
            wire::lemma_field_fits(all, at);
            wire::lemma_encoded_round_trip::<FileInfo>(v.files[j], (depth - 1) as nat);
        }
        wire::lemma_repeated::<Self, FileInfoView>(put2, Seq::empty(), v.files, s2, depth);
        assert(Seq::<FileInfoView>::empty() + v.files =~= v.files);
        assert(put2(Seq::empty()) == m1);
        wire::lemma_then::<Self>(m0, p1, m1, s2, m2, depth);
        assert(m2 =~= v);
    }
}

} // verus!
