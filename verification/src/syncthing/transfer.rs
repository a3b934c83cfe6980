//! Requests for data, their answers, and the progress of downloads.

use vstd::prelude::*;
use crate::wire;
use crate::wire::{DecodeError, Faithful, Field, FieldView, Message};
use super::file::{Vector, VectorView};

verus! {

/// A request for a part of a file.
#[derive(Debug, PartialEq)]
pub struct Request {
    pub id: i32,
    pub folder: String,
    pub name: String,
    pub offset: i64,
    pub size: i32,
    pub hash: Vec<u8>,
    pub from_temporary: bool,
}

#[verifier::ext_equal]
pub struct RequestView {
    pub id: i32,
    pub folder: Seq<char>,
    pub name: Seq<char>,
    pub offset: i64,
    pub size: i32,
    pub hash: Seq<u8>,
    pub from_temporary: bool,
}

impl View for Request {
    type V = RequestView;

    open spec fn view(&self) -> RequestView {
        RequestView {
            id: self.id,
            folder: self.folder@,
            name: self.name@,
            offset: self.offset,
            size: self.size,
            hash: self.hash@,
            from_temporary: self.from_temporary,
        }
    }
}

impl Clone for Request {
    fn clone(&self) -> (r: Self)
        ensures
            r@ == self@,
    {
        let r = Request {
            id: self.id,
            folder: self.folder.clone(),
            name: self.name.clone(),
            offset: self.offset,
            size: self.size,
            hash: self.hash.clone(),
            from_temporary: self.from_temporary,
        };
        assert(r.hash@ =~= self.hash@);
        r
    }
}

impl Message for Request {
    open spec fn initial() -> RequestView {
        RequestView {
            id: 0,
            folder: Seq::empty(),
            name: Seq::empty(),
            offset: 0,
            size: 0,
            hash: Seq::empty(),
            from_temporary: false,
        }
    }

    open spec fn merged(v: RequestView, field: FieldView, depth: nat) -> Option<RequestView> {
        if field.tag == 1 {
            match wire::as_number(field.value) {
                None => None,
                Some(x) => Some(RequestView { id: x as i32, ..v }),
            }
        } else if field.tag == 2 {
            match wire::as_text(field.value) {
                None => None,
                Some(x) => Some(RequestView { folder: x, ..v }),
            }
        } else if field.tag == 3 {
            match wire::as_text(field.value) {
                None => None,
                Some(x) => Some(RequestView { name: x, ..v }),
            }
        } else if field.tag == 4 {
            match wire::as_number(field.value) {
                None => None,
                Some(x) => Some(RequestView { offset: x as i64, ..v }),
            }
        } else if field.tag == 5 {
            match wire::as_number(field.value) {
                None => None,
                Some(x) => Some(RequestView { size: x as i32, ..v }),
            }
        } else if field.tag == 6 {
            match wire::as_bytes(field.value) {
                None => None,
                Some(x) => Some(RequestView { hash: x, ..v }),
            }
        } else if field.tag == 7 {
            match wire::as_number(field.value) {
                None => None,
                Some(x) => Some(RequestView { from_temporary: x != 0, ..v }),
            }
        } else {
            Some(v)
        }
    }

    open spec fn sent(v: RequestView) -> Seq<FieldView> {
        wire::number_field(1, v.id as u64)
            + wire::text_field(2, v.folder)
            + wire::text_field(3, v.name)
            + wire::number_field(4, v.offset as u64)
            + wire::number_field(5, v.size as u64)
            + wire::bytes_field(6, v.hash)
            + wire::number_field(7, wire::flag(v.from_temporary))
    }

    fn empty() -> (r: Self) {
        let r = Request {
            id: 0,
            folder: String::new(),
            name: String::new(),
            offset: 0,
            size: 0,
            hash: Vec::new(),
            from_temporary: false,
        };
        assert(r.folder@ =~= Seq::empty());
        assert(r.name@ =~= Seq::empty());
        assert(r.hash@ =~= Seq::empty());
        r
    }

    fn merge(&mut self, field: Field, depth: u32) -> (r: Result<(), DecodeError>) {
        match field.tag {
            1 => {
                self.id = field.value.into_number()? as i32;
            },
            2 => {
                self.folder = field.value.into_text()?;
            },
            3 => {
                self.name = field.value.into_text()?;
            },
            4 => {
                self.offset = field.value.into_number()? as i64;
            },
            5 => {
                self.size = field.value.into_number()? as i32;
            },
            6 => {
                self.hash = field.value.into_bytes()?;
            },
            7 => {
                self.from_temporary = field.value.into_number()? != 0;
            },
            _ => {},
        }
        Ok(())
    }

    fn to_fields(&self) -> (r: Vec<Field>) {
        let mut out: Vec<Field> = Vec::new();
        wire::push_number(&mut out, 1, self.id as u64);
        assert(crate::views(out@) =~= wire::number_field(1, self@.id as u64));
        wire::push_text(&mut out, 2, &self.folder);
        wire::push_text(&mut out, 3, &self.name);
        wire::push_number(&mut out, 4, self.offset as u64);
        wire::push_number(&mut out, 5, self.size as u64);
        wire::push_bytes(&mut out, 6, &self.hash);
        wire::push_flag(&mut out, 7, self.from_temporary);
        out
    }

    proof fn sent_is_sendable(v: RequestView) {
        broadcast use wire::group_sendable;

    }
}

impl Faithful for Request {
    open spec fn levels() -> nat {
        0
    }

    proof fn merged_back(v: RequestView, depth: nat) {
        let m0 = Self::initial();
        let s1 = wire::number_field(1, v.id as u64);
        let m1 = RequestView { id: v.id, ..m0 };
        wire::lemma_number_back(v.id, 0, 0);
        let p1 = s1;
        wire::lemma_at_most_one::<Self>(m0, s1, m1, depth);
        let s2 = wire::text_field(2, v.folder);
        let m2 = RequestView { folder: v.folder, ..m1 };
        wire::lemma_text_back(v.folder);
        let p2 = p1 + s2;
        wire::lemma_at_most_one::<Self>(m1, s2, m2, depth);
        wire::lemma_then::<Self>(m0, p1, m1, s2, m2, depth);
        let s3 = wire::text_field(3, v.name);
        let m3 = RequestView { name: v.name, ..m2 };
        wire::lemma_text_back(v.name);
        let p3 = p2 + s3;
        wire::lemma_at_most_one::<Self>(m2, s3, m3, depth);
        wire::lemma_then::<Self>(m0, p2, m2, s3, m3, depth);
        let s4 = wire::number_field(4, v.offset as u64);
        let m4 = RequestView { offset: v.offset, ..m3 };
        wire::lemma_number_back(0, v.offset, 0);
        let p4 = p3 + s4;
        wire::lemma_at_most_one::<Self>(m3, s4, m4, depth);
        wire::lemma_then::<Self>(m0, p3, m3, s4, m4, depth);
        let s5 = wire::number_field(5, v.size as u64);
        let m5 = RequestView { size: v.size, ..m4 };
        wire::lemma_number_back(v.size, 0, 0);
        let p5 = p4 + s5;
        wire::lemma_at_most_one::<Self>(m4, s5, m5, depth);
        wire::lemma_then::<Self>(m0, p4, m4, s5, m5, depth);
        let s6 = wire::bytes_field(6, v.hash);
        let m6 = RequestView { hash: v.hash, ..m5 };
        assert(v.hash.len() == 0 ==> v.hash =~= Seq::empty());
        let p6 = p5 + s6;
        wire::lemma_at_most_one::<Self>(m5, s6, m6, depth);
        wire::lemma_then::<Self>(m0, p5, m5, s6, m6, depth);
        let s7 = wire::number_field(7, wire::flag(v.from_temporary));
        let m7 = RequestView { from_temporary: v.from_temporary, ..m6 };
        let p7 = p6 + s7;
        wire::lemma_at_most_one::<Self>(m6, s7, m7, depth);
        wire::lemma_then::<Self>(m0, p6, m6, s7, m7, depth);
        assert(m7 =~= v);
    }
}

/// The answer to the request with the same id.
#[derive(Debug, PartialEq)]
pub struct Response {
    pub id: i32,
    pub data: Vec<u8>,
    /// A number of `ErrorCode`.
    pub code: i32,
}

#[verifier::ext_equal]
pub struct ResponseView {
    pub id: i32,
    pub data: Seq<u8>,
    pub code: i32,
}

impl View for Response {
    type V = ResponseView;

    open spec fn view(&self) -> ResponseView {
        ResponseView {
            id: self.id,
            data: self.data@,
            code: self.code,
        }
    }
}

impl Clone for Response {
    fn clone(&self) -> (r: Self)
        ensures
            r@ == self@,
    {
        let r = Response {
            id: self.id,
            data: self.data.clone(),
            code: self.code,
        };
        assert(r.data@ =~= self.data@);
        r
    }
}

impl Message for Response {
    open spec fn initial() -> ResponseView {
        ResponseView {
            id: 0,
            data: Seq::empty(),
            code: 0,
        }
    }

    open spec fn merged(v: ResponseView, field: FieldView, depth: nat) -> Option<ResponseView> {
        if field.tag == 1 {
            match wire::as_number(field.value) {
                None => None,
                Some(x) => Some(ResponseView { id: x as i32, ..v }),
            }
        } else if field.tag == 2 {
            match wire::as_bytes(field.value) {
                None => None,
                Some(x) => Some(ResponseView { data: x, ..v }),
            }
        } else if field.tag == 3 {
            match wire::as_number(field.value) {
                None => None,
                Some(x) => Some(ResponseView { code: x as i32, ..v }),
            }
        } else {
            Some(v)
        }
    }

    open spec fn sent(v: ResponseView) -> Seq<FieldView> {
        wire::number_field(1, v.id as u64)
            + wire::bytes_field(2, v.data)
            + wire::number_field(3, v.code as u64)
    }

    fn empty() -> (r: Self) {
        let r = Response {
            id: 0,
            data: Vec::new(),
            code: 0,
        };
        assert(r.data@ =~= Seq::empty());
        r
    }

    fn merge(&mut self, field: Field, depth: u32) -> (r: Result<(), DecodeError>) {
        match field.tag {
            1 => {
                self.id = field.value.into_number()? as i32;
            },
            2 => {
                self.data = field.value.into_bytes()?;
            },
            3 => {
                self.code = field.value.into_number()? as i32;
            },
            _ => {},
        }
        Ok(())
    }

    fn to_fields(&self) -> (r: Vec<Field>) {
        let mut out: Vec<Field> = Vec::new();
        wire::push_number(&mut out, 1, self.id as u64);
        assert(crate::views(out@) =~= wire::number_field(1, self@.id as u64));
        wire::push_bytes(&mut out, 2, &self.data);
        wire::push_number(&mut out, 3, self.code as u64);
        out
    }

    proof fn sent_is_sendable(v: ResponseView) {
        broadcast use wire::group_sendable;

    }
}

impl Faithful for Response {
    open spec fn levels() -> nat {
        0
    }

    proof fn merged_back(v: ResponseView, depth: nat) {
        let m0 = Self::initial();
        let s1 = wire::number_field(1, v.id as u64);
        let m1 = ResponseView { id: v.id, ..m0 };
        wire::lemma_number_back(v.id, 0, 0);
        let p1 = s1;
        wire::lemma_at_most_one::<Self>(m0, s1, m1, depth);
        let s2 = wire::bytes_field(2, v.data);
        let m2 = ResponseView { data: v.data, ..m1 };
        assert(v.data.len() == 0 ==> v.data =~= Seq::empty());
        let p2 = p1 + s2;
        wire::lemma_at_most_one::<Self>(m1, s2, m2, depth);
        wire::lemma_then::<Self>(m0, p1, m1, s2, m2, depth);
        let s3 = wire::number_field(3, v.code as u64);
        let m3 = ResponseView { code: v.code, ..m2 };
        wire::lemma_number_back(v.code, 0, 0);
        let p3 = p2 + s3;
        wire::lemma_at_most_one::<Self>(m2, s3, m3, depth);
        wire::lemma_then::<Self>(m0, p2, m2, s3, m3, depth);
        assert(m3 =~= v);
    }
}

/// How far the download of one file has come.
#[derive(Debug, PartialEq)]
pub struct FileDownloadProgressUpdate {
    pub update_type: i32,
    pub name: String,
    pub version: Option<Vector>,
    pub block_indexes: Vec<i32>,
}

#[verifier::ext_equal]
pub struct FileDownloadProgressUpdateView {
    pub update_type: i32,
    pub name: Seq<char>,
    pub version: Option<VectorView>,
    pub block_indexes: Seq<i32>,
}

impl View for FileDownloadProgressUpdate {
    type V = FileDownloadProgressUpdateView;

    open spec fn view(&self) -> FileDownloadProgressUpdateView {
        FileDownloadProgressUpdateView {
            update_type: self.update_type,
            name: self.name@,
            version: wire::view_option(self.version),
            block_indexes: self.block_indexes@,
        }
    }
}

impl Clone for FileDownloadProgressUpdate {
    fn clone(&self) -> (r: Self)
        ensures
            r@ == self@,
    {
        let r = FileDownloadProgressUpdate {
            update_type: self.update_type,
            name: self.name.clone(),
            version: match &self.version {
                Some(x) => Some(x.clone()),
                None => None,
            },
            block_indexes: self.block_indexes.clone(),
        };
        assert(r.block_indexes@ =~= self.block_indexes@);
        r
    }
}

impl Message for FileDownloadProgressUpdate {
    open spec fn initial() -> FileDownloadProgressUpdateView {
        FileDownloadProgressUpdateView {
            update_type: 0,
            name: Seq::empty(),
            version: None,
            block_indexes: Seq::empty(),
        }
    }

    open spec fn merged(v: FileDownloadProgressUpdateView, field: FieldView, depth: nat) -> Option<FileDownloadProgressUpdateView> {
        if field.tag == 1 {
            match wire::as_number(field.value) {
                None => None,
                Some(x) => Some(FileDownloadProgressUpdateView { update_type: x as i32, ..v }),
            }
        } else if field.tag == 2 {
            match wire::as_text(field.value) {
                None => None,
                Some(x) => Some(FileDownloadProgressUpdateView { name: x, ..v }),
            }
        } else if field.tag == 3 {
            match wire::nested::<Vector>(
                match v.version {
                    Some(w) => w,
                    None => Vector::initial(),
                },
                field.value,
                depth,
            ) {
                None => None,
                Some(x) => Some(FileDownloadProgressUpdateView { version: Some(x), ..v }),
            }
        } else if field.tag == 4 {
            match wire::as_numbers(field.value) {
                None => None,
                Some(x) => Some(FileDownloadProgressUpdateView { block_indexes: v.block_indexes + wire::short_numbers(x), ..v }),
            }
        } else {
            Some(v)
        }
    }

    open spec fn sent(v: FileDownloadProgressUpdateView) -> Seq<FieldView> {
        wire::number_field(1, v.update_type as u64)
            + wire::text_field(2, v.name)
            + wire::message_field::<Vector>(3, v.version)
            + wire::number_fields(4, v.block_indexes)
    }

    fn empty() -> (r: Self) {
        let r = FileDownloadProgressUpdate {
            update_type: 0,
            name: String::new(),
            version: None,
            block_indexes: Vec::new(),
        };
        assert(r.name@ =~= Seq::empty());
        assert(r.block_indexes@ =~= Seq::empty());
        r
    }

    fn merge(&mut self, field: Field, depth: u32) -> (r: Result<(), DecodeError>) {
        match field.tag {
            1 => {
                self.update_type = field.value.into_number()? as i32;
            },
            2 => {
                self.name = field.value.into_text()?;
            },
            3 => {
                let mut x = match self.version.take() {
                    Some(w) => w,
                    None => Vector::empty(),
                };
                wire::merge_nested(&mut x, field.value, depth)?;
                self.version = Some(x);
            },
            4 => {
                let xs = field.value.into_numbers()?;
                wire::append_short(&mut self.block_indexes, &xs);
            },
            _ => {},
        }
        Ok(())
    }

    fn to_fields(&self) -> (r: Vec<Field>) {
        let mut out: Vec<Field> = Vec::new();
        wire::push_number(&mut out, 1, self.update_type as u64);
        assert(crate::views(out@) =~= wire::number_field(1, self@.update_type as u64));
        wire::push_text(&mut out, 2, &self.name);
        wire::push_message(&mut out, 3, &self.version);
        wire::push_numbers(&mut out, 4, &self.block_indexes);
        out
    }

    proof fn sent_is_sendable(v: FileDownloadProgressUpdateView) {
        broadcast use wire::group_sendable;

    }
}

impl Faithful for FileDownloadProgressUpdate {
    open spec fn levels() -> nat {
        2
    }

    proof fn merged_back(v: FileDownloadProgressUpdateView, depth: nat) {
        let m0 = Self::initial();
        let all = Self::sent(v);
        let s1 = wire::number_field(1, v.update_type as u64);
        let m1 = FileDownloadProgressUpdateView { update_type: v.update_type, ..m0 };
        wire::lemma_number_back(v.update_type, 0, 0);
        let p1 = s1;
        wire::lemma_at_most_one::<Self>(m0, s1, m1, depth);
        let s2 = wire::text_field(2, v.name);
        let m2 = FileDownloadProgressUpdateView { name: v.name, ..m1 };
        wire::lemma_text_back(v.name);
        let p2 = p1 + s2;
        wire::lemma_at_most_one::<Self>(m1, s2, m2, depth);
        wire::lemma_then::<Self>(m0, p1, m1, s2, m2, depth);
        let s3 = wire::message_field::<Vector>(3, v.version);
        let m3 = FileDownloadProgressUpdateView { version: v.version, ..m2 };
        let p3 = p2 + s3;
        if let Some(x) = v.version {
            let at: int = p3.len() - 1;
            assert(all[at] == s3[0]);
            wire::lemma_field_fits(all, at);
            wire::lemma_encoded_round_trip::<Vector>(x, (depth - 1) as nat);
        }
        wire::lemma_at_most_one::<Self>(m2, s3, m3, depth);
        wire::lemma_then::<Self>(m0, p2, m2, s3, m3, depth);
        let s4 = wire::number_fields(4, v.block_indexes);
        let m4 = FileDownloadProgressUpdateView { block_indexes: v.block_indexes, ..m3 };
        let p4 = p3 + s4;
        let put4 = |xs: Seq<i32>| FileDownloadProgressUpdateView { block_indexes: xs, ..m3 };
        assert forall|pre: Seq<i32>, j: int| 0 <= j < v.block_indexes.len() implies #[trigger] Self::merged(
            put4(pre),
            s4[j],
            depth,
        ) == Some(put4(pre.push(v.block_indexes[j]))) by {
            wire::lemma_number_back(v.block_indexes[j], 0, 0);
            let one = seq![v.block_indexes[j] as u64];
            assert(pre + wire::short_numbers(one) =~= pre.push(v.block_indexes[j]));
        }
        wire::lemma_repeated::<Self, i32>(put4, Seq::empty(), v.block_indexes, s4, depth);
        assert(Seq::<i32>::empty() + v.block_indexes =~= v.block_indexes);
        assert(put4(Seq::empty()) == m3);
        wire::lemma_then::<Self>(m0, p3, m3, s4, m4, depth);
        assert(m4 =~= v);
    }
}

/// How far the downloads in a folder have come.
#[derive(Debug, PartialEq)]
pub struct DownloadProgress {
    pub folder: String,
    pub updates: Vec<FileDownloadProgressUpdate>,
}

#[verifier::ext_equal]
pub struct DownloadProgressView {
    pub folder: Seq<char>,
    pub updates: Seq<FileDownloadProgressUpdateView>,
}

impl View for DownloadProgress {
    type V = DownloadProgressView;

    open spec fn view(&self) -> DownloadProgressView {
        DownloadProgressView {
            folder: self.folder@,
            updates: crate::views(self.updates@),
        }
    }
}

impl Clone for DownloadProgress {
    fn clone(&self) -> (r: Self)
        ensures
            r@ == self@,
    {
        let r = DownloadProgress {
            folder: self.folder.clone(),
            updates: self.updates.clone(),
        };
        assert(crate::views(r.updates@) =~= crate::views(self.updates@));
        r
    }
}

impl Message for DownloadProgress {
    open spec fn initial() -> DownloadProgressView {
        DownloadProgressView {
            folder: Seq::empty(),
            updates: Seq::empty(),
        }
    }

    open spec fn merged(v: DownloadProgressView, field: FieldView, depth: nat) -> Option<DownloadProgressView> {
        if field.tag == 1 {
            match wire::as_text(field.value) {
                None => None,
                Some(x) => Some(DownloadProgressView { folder: x, ..v }),
            }
        } else if field.tag == 2 {
            match wire::nested::<FileDownloadProgressUpdate>(FileDownloadProgressUpdate::initial(), field.value, depth) {
                None => None,
                Some(x) => Some(DownloadProgressView { updates: v.updates.push(x), ..v }),
            }
        } else {
            Some(v)
        }
    }

    open spec fn sent(v: DownloadProgressView) -> Seq<FieldView> {
        wire::text_field(1, v.folder)
            + wire::message_fields::<FileDownloadProgressUpdate>(2, v.updates)
    }

    fn empty() -> (r: Self) {
        let r = DownloadProgress {
            folder: String::new(),
            updates: Vec::new(),
        };
        assert(r.folder@ =~= Seq::empty());
        assert(crate::views(r.updates@) =~= Seq::empty());
        r
    }

    fn merge(&mut self, field: Field, depth: u32) -> (r: Result<(), DecodeError>) {
        match field.tag {
            1 => {
                self.folder = field.value.into_text()?;
            },
            2 => {
                let mut x = FileDownloadProgressUpdate::empty();
                wire::merge_nested(&mut x, field.value, depth)?;
                proof {
                    crate::lemma_views_push(self.updates@, x);
                }
                self.updates.push(x);
            },
            _ => {},
        }
        Ok(())
    }

    fn to_fields(&self) -> (r: Vec<Field>) {
        let mut out: Vec<Field> = Vec::new();
        wire::push_text(&mut out, 1, &self.folder);
        assert(crate::views(out@) =~= wire::text_field(1, self@.folder));
        wire::push_messages(&mut out, 2, &self.updates);
        out
    }

    proof fn sent_is_sendable(v: DownloadProgressView) {
        broadcast use wire::group_sendable;

    }
}

impl Faithful for DownloadProgress {
    open spec fn levels() -> nat {
        3
    }

    proof fn merged_back(v: DownloadProgressView, depth: nat) {
        let m0 = Self::initial();
        let all = Self::sent(v);
        let s1 = wire::text_field(1, v.folder);
        let m1 = DownloadProgressView { folder: v.folder, ..m0 };
        wire::lemma_text_back(v.folder);
        let p1 = s1;
        wire::lemma_at_most_one::<Self>(m0, s1, m1, depth);
        let s2 = wire::message_fields::<FileDownloadProgressUpdate>(2, v.updates);
        let m2 = DownloadProgressView { updates: v.updates, ..m1 };
        let p2 = p1 + s2;
        let put2 = |xs: Seq<FileDownloadProgressUpdateView>| DownloadProgressView { updates: xs, ..m1 };
        assert forall|pre: Seq<FileDownloadProgressUpdateView>, j: int| 0 <= j < v.updates.len() implies #[trigger] Self::merged(
            put2(pre),
            s2[j],
            depth,
        ) == Some(put2(pre.push(v.updates[j]))) by {
            let at: int = p1.len() + j;
            assert(all[at] == s2[j]);
            wire::lemma_field_fits(all, at);
            wire::lemma_encoded_round_trip::<FileDownloadProgressUpdate>(v.updates[j], (depth - 1) as nat);
        }
        wire::lemma_repeated::<Self, FileDownloadProgressUpdateView>(put2, Seq::empty(), v.updates, s2, depth);
        assert(Seq::<FileDownloadProgressUpdateView>::empty() + v.updates =~= v.updates);
        assert(put2(Seq::empty()) == m1);
        wire::lemma_then::<Self>(m0, p1, m1, s2, m2, depth);
        assert(m2 =~= v);
    }
}

} // verus!
