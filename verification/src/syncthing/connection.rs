//! The messages that open, keep and close a connection.

use vstd::prelude::*;
use crate::wire;
use crate::wire::{DecodeError, Faithful, Field, FieldView, Message};

verus! {

/// The first message on a connection, before any other.
#[derive(Debug, PartialEq)]
pub struct Hello {
    pub device_name: String,
    pub client_name: String,
    pub client_version: String,
}

#[verifier::ext_equal]
pub struct HelloView {
    pub device_name: Seq<char>,
    pub client_name: Seq<char>,
    pub client_version: Seq<char>,
}

impl View for Hello {
    type V = HelloView;

    open spec fn view(&self) -> HelloView {
        HelloView {
            device_name: self.device_name@,
            client_name: self.client_name@,
            client_version: self.client_version@,
        }
    }
}

impl Clone for Hello {
    fn clone(&self) -> (r: Self)
        ensures
            r@ == self@,
    {
        Hello {
            device_name: self.device_name.clone(),
            client_name: self.client_name.clone(),
            client_version: self.client_version.clone(),
        }
    }
}

impl Message for Hello {
    open spec fn initial() -> HelloView {
        HelloView {
            device_name: Seq::empty(),
            client_name: Seq::empty(),
            client_version: Seq::empty(),
        }
    }

    open spec fn merged(v: HelloView, field: FieldView, depth: nat) -> Option<HelloView> {
        if field.tag == 1 {
            match wire::as_text(field.value) {
                None => None,
                Some(x) => Some(HelloView { device_name: x, ..v }),
            }
        } else if field.tag == 2 {
            match wire::as_text(field.value) {
                None => None,
                Some(x) => Some(HelloView { client_name: x, ..v }),
            }
        } else if field.tag == 3 {
            match wire::as_text(field.value) {
                None => None,
                Some(x) => Some(HelloView { client_version: x, ..v }),
            }
        } else {
            Some(v)
        }
    }

    open spec fn sent(v: HelloView) -> Seq<FieldView> {
        wire::text_field(1, v.device_name)
            + wire::text_field(2, v.client_name)
            + wire::text_field(3, v.client_version)
    }

    fn empty() -> (r: Self) {
        let r = Hello {
            device_name: String::new(),
            client_name: String::new(),
            client_version: String::new(),
        };
        assert(r.device_name@ =~= Seq::empty());
        assert(r.client_name@ =~= Seq::empty());
        assert(r.client_version@ =~= Seq::empty());
        r
    }

    fn merge(&mut self, field: Field, depth: u32) -> (r: Result<(), DecodeError>) {
        match field.tag {
            1 => {
                self.device_name = field.value.into_text()?;
            },
            2 => {
                self.client_name = field.value.into_text()?;
            },
            3 => {
                self.client_version = field.value.into_text()?;
            },
            _ => {},
        }
        Ok(())
    }

    fn to_fields(&self) -> (r: Vec<Field>) {
        let mut out: Vec<Field> = Vec::new();
        wire::push_text(&mut out, 1, &self.device_name);
        assert(crate::views(out@) =~= wire::text_field(1, self@.device_name));
        wire::push_text(&mut out, 2, &self.client_name);
        wire::push_text(&mut out, 3, &self.client_version);
        out
    }

    proof fn sent_is_sendable(v: HelloView) {
        broadcast use wire::group_sendable;

    }
}

impl Faithful for Hello {
    open spec fn levels() -> nat {
        0
    }

    proof fn merged_back(v: HelloView, depth: nat) {
        let m0 = Self::initial();
        let s1 = wire::text_field(1, v.device_name);
        let m1 = HelloView { device_name: v.device_name, ..m0 };
        wire::lemma_text_back(v.device_name);
        let p1 = s1;
        wire::lemma_at_most_one::<Self>(m0, s1, m1, depth);
        let s2 = wire::text_field(2, v.client_name);
        let m2 = HelloView { client_name: v.client_name, ..m1 };
        wire::lemma_text_back(v.client_name);
        let p2 = p1 + s2;
        wire::lemma_at_most_one::<Self>(m1, s2, m2, depth);
        wire::lemma_then::<Self>(m0, p1, m1, s2, m2, depth);
        let s3 = wire::text_field(3, v.client_version);
        let m3 = HelloView { client_version: v.client_version, ..m2 };
        wire::lemma_text_back(v.client_version);
        let p3 = p2 + s3;
        wire::lemma_at_most_one::<Self>(m2, s3, m3, depth);
        wire::lemma_then::<Self>(m0, p2, m2, s3, m3, depth);
        assert(m3 =~= v);
    }
}

/// What precedes every message after the hello.
#[derive(Debug, PartialEq)]
pub struct Header {
    /// A number of `MessageType`.
    pub message_type: i32,
    /// A number of `MessageCompression`.
    pub compression: i32,
}

#[verifier::ext_equal]
pub struct HeaderView {
    pub message_type: i32,
    pub compression: i32,
}

impl View for Header {
    type V = HeaderView;

    open spec fn view(&self) -> HeaderView {
        HeaderView {
            message_type: self.message_type,
            compression: self.compression,
        }
    }
}

impl Clone for Header {
    fn clone(&self) -> (r: Self)
        ensures
            r@ == self@,
    {
        Header {
            message_type: self.message_type,
            compression: self.compression,
        }
    }
}

impl Message for Header {
    open spec fn initial() -> HeaderView {
        HeaderView {
            message_type: 0,
            compression: 0,
        }
    }

    open spec fn merged(v: HeaderView, field: FieldView, depth: nat) -> Option<HeaderView> {
        if field.tag == 1 {
            match wire::as_number(field.value) {
                None => None,
                Some(x) => Some(HeaderView { message_type: x as i32, ..v }),
            }
        } else if field.tag == 2 {
            match wire::as_number(field.value) {
                None => None,
                Some(x) => Some(HeaderView { compression: x as i32, ..v }),
            }
        } else {
            Some(v)
        }
    }

    open spec fn sent(v: HeaderView) -> Seq<FieldView> {
        wire::number_field(1, v.message_type as u64)
            + wire::number_field(2, v.compression as u64)
    }

    fn empty() -> (r: Self) {
        Header {
            message_type: 0,
            compression: 0,
        }
    }

    fn merge(&mut self, field: Field, depth: u32) -> (r: Result<(), DecodeError>) {
        match field.tag {
            1 => {
                self.message_type = field.value.into_number()? as i32;
            },
            2 => {
                self.compression = field.value.into_number()? as i32;
            },
            _ => {},
        }
        Ok(())
    }

    fn to_fields(&self) -> (r: Vec<Field>) {
        let mut out: Vec<Field> = Vec::new();
        wire::push_number(&mut out, 1, self.message_type as u64);
        assert(crate::views(out@) =~= wire::number_field(1, self@.message_type as u64));
        wire::push_number(&mut out, 2, self.compression as u64);
        out
    }

    proof fn sent_is_sendable(v: HeaderView) {
        broadcast use wire::group_sendable;

    }
}

impl Faithful for Header {
    open spec fn levels() -> nat {
        0
    }

    proof fn merged_back(v: HeaderView, depth: nat) {
        let m0 = Self::initial();
        let s1 = wire::number_field(1, v.message_type as u64);
        let m1 = HeaderView { message_type: v.message_type, ..m0 };
        wire::lemma_number_back(v.message_type, 0, 0);
        let p1 = s1;
        wire::lemma_at_most_one::<Self>(m0, s1, m1, depth);
        let s2 = wire::number_field(2, v.compression as u64);
        let m2 = HeaderView { compression: v.compression, ..m1 };
        wire::lemma_number_back(v.compression, 0, 0);
        let p2 = p1 + s2;
        wire::lemma_at_most_one::<Self>(m1, s2, m2, depth);
        wire::lemma_then::<Self>(m0, p1, m1, s2, m2, depth);
        assert(m2 =~= v);
    }
}

/// A sign of life.
#[derive(Debug, PartialEq)]
pub struct Ping {
}

#[verifier::ext_equal]
pub struct PingView {
}

impl View for Ping {
    type V = PingView;

    open spec fn view(&self) -> PingView {
        PingView {
        }
    }
}

impl Clone for Ping {
    fn clone(&self) -> (r: Self)
        ensures
            r@ == self@,
    {
        Ping {
        }
    }
}

impl Message for Ping {
    open spec fn initial() -> PingView {
        PingView {
        }
    }

    open spec fn merged(v: PingView, field: FieldView, depth: nat) -> Option<PingView> {
        Some(v)
    }

    open spec fn sent(v: PingView) -> Seq<FieldView> {
        Seq::empty()
    }

    fn empty() -> (r: Self) {
        Ping {
        }
    }

    fn merge(&mut self, field: Field, depth: u32) -> (r: Result<(), DecodeError>) {
        Ok(())
    }

    fn to_fields(&self) -> (r: Vec<Field>) {
        let mut out: Vec<Field> = Vec::new();
        assert(crate::views(out@) =~= Self::sent(self@));
        out
    }

    proof fn sent_is_sendable(v: PingView) {
        reveal(wire::all_sendable);
    }
}

impl Faithful for Ping {
    open spec fn levels() -> nat {
        0
    }

    proof fn merged_back(v: PingView, depth: nat) {
        assert(v == Self::initial());
    }
}

/// The last message on a connection.
#[derive(Debug, PartialEq)]
pub struct Close {
    pub reason: String,
}

#[verifier::ext_equal]
pub struct CloseView {
    pub reason: Seq<char>,
}

impl View for Close {
    type V = CloseView;

    open spec fn view(&self) -> CloseView {
        CloseView {
            reason: self.reason@,
        }
    }
}

impl Clone for Close {
    fn clone(&self) -> (r: Self)
        ensures
            r@ == self@,
    {
        Close {
            reason: self.reason.clone(),
        }
    }
}

impl Message for Close {
    open spec fn initial() -> CloseView {
        CloseView {
            reason: Seq::empty(),
        }
    }

    open spec fn merged(v: CloseView, field: FieldView, depth: nat) -> Option<CloseView> {
        if field.tag == 1 {
            match wire::as_text(field.value) {
                None => None,
                Some(x) => Some(CloseView { reason: x }),
            }
        } else {
            Some(v)
        }
    }

    open spec fn sent(v: CloseView) -> Seq<FieldView> {
        wire::text_field(1, v.reason)
    }

    fn empty() -> (r: Self) {
        let r = Close {
            reason: String::new(),
        };
        assert(r.reason@ =~= Seq::empty());
        r
    }

    fn merge(&mut self, field: Field, depth: u32) -> (r: Result<(), DecodeError>) {
        match field.tag {
            1 => {
                self.reason = field.value.into_text()?;
            },
            _ => {},
        }
        Ok(())
    }

    fn to_fields(&self) -> (r: Vec<Field>) {
        let mut out: Vec<Field> = Vec::new();
        wire::push_text(&mut out, 1, &self.reason);
        assert(crate::views(out@) =~= wire::text_field(1, self@.reason));
        out
    }

    proof fn sent_is_sendable(v: CloseView) {
        broadcast use wire::group_sendable;

    }
}

impl Faithful for Close {
    open spec fn levels() -> nat {
        0
    }

    proof fn merged_back(v: CloseView, depth: nat) {
        let m0 = Self::initial();
        let s1 = wire::text_field(1, v.reason);
        let m1 = CloseView { reason: v.reason };
        wire::lemma_text_back(v.reason);
        let p1 = s1;
        wire::lemma_at_most_one::<Self>(m0, s1, m1, depth);
        assert(m1 =~= v);
    }
}

} // verus!
