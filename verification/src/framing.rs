//! Putting messages into the form in which they are sent.

use vstd::prelude::*;
use crate::bep_data_parser;
use crate::bep_data_parser::{
    BepAuthStatus, CompleteMessage, CompleteMessageView, MAGIC_NUMBER, HEADER_START, HELLO_START,
};
use crate::syncthing::{
    Close, ClusterConfig, DownloadProgress, Header, HeaderView, Hello, HelloView, Index,
    IndexUpdate, MessageType, Ping, Request, RequestView, Response,
};
use crate::types::{GrizolEvent, GrizolEventView};
use crate::wire;
use crate::wire::{Faithful, Message};

verus! {

/// Why an event cannot be turned into data for the peer.
#[derive(Debug, Clone, Copy, PartialEq, Eq, Structural)]
pub enum SendError {
    /// Requests are sent when a `RequestCreated` event comes, not by themselves.
    RequestAsMessage,
    /// A message is longer than its length field can say.
    TooLong,
}

/// A 16-bit number, most significant byte first.
pub open spec fn u16_bytes(n: nat) -> Seq<u8> {
    seq![(n / 256) as u8, (n % 256) as u8]
}

/// A 32-bit number, most significant byte first.
pub open spec fn u32_bytes(n: nat) -> Seq<u8> {
    seq![
        (n / 16777216) as u8,
        (n / 65536 % 256) as u8,
        (n / 256 % 256) as u8,
        (n % 256) as u8,
    ]
}

/// A hello as it is sent.
pub open spec fn hello_frame(raw: Seq<u8>) -> Seq<u8> {
    MAGIC_NUMBER@ + u16_bytes(raw.len()) + raw
}

/// A message as it is sent, after its header.
pub open spec fn message_frame(header: HeaderView, raw: Seq<u8>) -> Seq<u8> {
    u16_bytes(wire::encoded::<Header>(header).len()) + wire::encoded::<Header>(header) + u32_bytes(
        raw.len(),
    ) + raw
}

/// The header of a message of the given type that is not compressed.
pub open spec fn plain_header(message_type: MessageType) -> HeaderView {
    HeaderView { message_type: message_type.number(), compression: 0 }
}

/// The encoding of a message, without what goes before it.
pub open spec fn body_of(m: CompleteMessageView) -> Seq<u8> {
    match m {
        CompleteMessageView::Hello(x) => wire::encoded::<Hello>(x),
        CompleteMessageView::ClusterConfig(x) => wire::encoded::<ClusterConfig>(x),
        CompleteMessageView::Index(x) => wire::encoded::<Index>(x),
        CompleteMessageView::IndexUpdate(x) => wire::encoded::<IndexUpdate>(x),
        CompleteMessageView::Request(x) => wire::encoded::<Request>(x),
        CompleteMessageView::Response(x) => wire::encoded::<Response>(x),
        CompleteMessageView::DownloadProgress(x) => wire::encoded::<DownloadProgress>(x),
        CompleteMessageView::Ping(x) => wire::encoded::<Ping>(x),
        CompleteMessageView::Close(x) => wire::encoded::<Close>(x),
    }
}

/// The type that a message has in its header; a hello has no header.
pub open spec fn type_of(m: CompleteMessageView) -> Option<MessageType> {
    match m {
        CompleteMessageView::Hello(_) => None,
        CompleteMessageView::ClusterConfig(_) => Some(MessageType::ClusterConfig),
        CompleteMessageView::Index(_) => Some(MessageType::Index),
        CompleteMessageView::IndexUpdate(_) => Some(MessageType::IndexUpdate),
        CompleteMessageView::Request(_) => Some(MessageType::Request),
        CompleteMessageView::Response(_) => Some(MessageType::Response),
        CompleteMessageView::DownloadProgress(_) => Some(MessageType::DownloadProgress),
        CompleteMessageView::Ping(_) => Some(MessageType::Ping),
        CompleteMessageView::Close(_) => Some(MessageType::Close),
    }
}

/// A message as it is sent.
pub open spec fn frame_of(m: CompleteMessageView) -> Seq<u8> {
    match type_of(m) {
        None => hello_frame(body_of(m)),
        Some(t) => message_frame(plain_header(t), body_of(m)),
    }
}

/// The length of the message can be said in the bytes there are for it.
pub open spec fn sendable(m: CompleteMessageView) -> bool {
    match type_of(m) {
        None => body_of(m).len() <= u16::MAX,
        Some(_) => body_of(m).len() <= u32::MAX,
    }
}

/// The requests as they are sent, one after the other.
pub open spec fn request_frames(rs: Seq<RequestView>) -> Seq<u8>
    decreases rs.len(),
{
    if rs.len() == 0 {
        Seq::empty()
    } else {
        request_frames(rs.drop_last()) + frame_of(CompleteMessageView::Request(rs.last()))
    }
}

pub open spec fn requests_sendable(rs: Seq<RequestView>) -> bool {
    forall|i: int|
        0 <= i < rs.len() ==> sendable(CompleteMessageView::Request(#[trigger] rs[i]))
}

/// What is sent for an event, where `requests` are those whose turn it is.
pub open spec fn event_bytes(event: GrizolEventView, requests: Seq<RequestView>) -> Result<
    Seq<u8>,
    SendError,
> {
    match event {
        GrizolEventView::Message(m) => if m is Request {
            Err(SendError::RequestAsMessage)
        } else if !sendable(m) {
            Err(SendError::TooLong)
        } else {
            Ok(frame_of(m))
        },
        _ => if requests_sendable(requests) {
            Ok(request_frames(requests))
        } else {
            Err(SendError::TooLong)
        },
    }
}

fn append(out: &mut Vec<u8>, more: &Vec<u8>)
    ensures
        final(out)@ == old(out)@ + more@,
{
    out.extend_from_slice(more.as_slice());
    assert(out@ =~= old(out)@ + more@);
}

fn append_u16(out: &mut Vec<u8>, n: u16)
    ensures
        final(out)@ == old(out)@ + u16_bytes(n as nat),
{
    out.push((n / 256) as u8);
    out.push((n % 256) as u8);
    assert(out@ =~= old(out)@ + u16_bytes(n as nat));
}

fn append_u32(out: &mut Vec<u8>, n: u32)
    ensures
        final(out)@ == old(out)@ + u32_bytes(n as nat),
{
    out.push((n / 16777216) as u8);
    out.push((n / 65536 % 256) as u8);
    out.push((n / 256 % 256) as u8);
    out.push((n % 256) as u8);
    assert(out@ =~= old(out)@ + u32_bytes(n as nat));
}

/// A header takes few bytes.
proof fn lemma_header_len(h: HeaderView)
    ensures
        wire::encoded::<Header>(h).len() <= 22,
{
    let a = wire::number_field(1, h.message_type as u64);
    let b = wire::number_field(2, h.compression as u64);
    wire::lemma_bytes_of_concat(a, b);
    wire::lemma_number_field_len(1, h.message_type as u64);
    wire::lemma_number_field_len(2, h.compression as u64);
}

/// Puts a header and the lengths before a message.
pub fn serialize_message(header: &Header, message_bytes: &Vec<u8>) -> (r: Vec<u8>)
    requires
        message_bytes@.len() <= u32::MAX,
    ensures
        r@ == message_frame(header@, message_bytes@),
{
    let header_bytes = wire::encode(header);
    proof {
        lemma_header_len(header@);
    }
    let mut message: Vec<u8> = Vec::new();
    append_u16(&mut message, header_bytes.len() as u16);
    append(&mut message, &header_bytes);
    append_u32(&mut message, message_bytes.len() as u32);
    append(&mut message, message_bytes);
    assert(message@ =~= message_frame(header@, message_bytes@));
    message
}

/// Puts the magic number and the length before a hello.
pub fn serialize_hello(message_bytes: &Vec<u8>) -> (r: Vec<u8>)
    requires
        message_bytes@.len() <= u16::MAX,
    ensures
        r@ == hello_frame(message_bytes@),
{
    let mut message: Vec<u8> = Vec::new();
    message.push(MAGIC_NUMBER[0]);
    message.push(MAGIC_NUMBER[1]);
    message.push(MAGIC_NUMBER[2]);
    message.push(MAGIC_NUMBER[3]);
    assert(message@ =~= MAGIC_NUMBER@);
    append_u16(&mut message, message_bytes.len() as u16);
    append(&mut message, message_bytes);
    message
}

fn serialize_typed(message_type: MessageType, body: &Vec<u8>) -> (r: Result<Vec<u8>, SendError>)
    ensures
        if body@.len() <= u32::MAX {
            r matches Ok(data) && data@ == message_frame(plain_header(message_type), body@)
        } else {
            r == Err::<Vec<u8>, SendError>(SendError::TooLong)
        },
{
    if body.len() as u64 > u32::MAX as u64 {
        return Err(SendError::TooLong);
    }
    let header = Header { compression: 0, message_type: message_type.to_number() };
    Ok(serialize_message(&header, body))
}

/// The data to send for an event, where `requests` are those whose turn it is.
pub fn serialize_event(event: &GrizolEvent, requests: &Vec<Request>) -> (r: Result<
    Vec<u8>,
    SendError,
>)
    ensures
        match event_bytes(event@, crate::views(requests@)) {
            Ok(data) => r matches Ok(v) && v@ == data,
            Err(e) => r == Err::<Vec<u8>, SendError>(e),
        },
{
    match event {
        GrizolEvent::Message(m) => match m {
            CompleteMessage::Hello(m) => {
                let body = wire::encode(m);
                if body.len() > u16::MAX as usize {
                    return Err(SendError::TooLong);
                }
                Ok(serialize_hello(&body))
            },
            CompleteMessage::ClusterConfig(m) => serialize_typed(
                MessageType::ClusterConfig,
                &wire::encode(m),
            ),
            CompleteMessage::Index(m) => serialize_typed(MessageType::Index, &wire::encode(m)),
            CompleteMessage::IndexUpdate(m) => serialize_typed(
                MessageType::IndexUpdate,
                &wire::encode(m),
            ),
            CompleteMessage::Response(m) => serialize_typed(
                MessageType::Response,
                &wire::encode(m),
            ),
            CompleteMessage::DownloadProgress(m) => serialize_typed(
                MessageType::DownloadProgress,
                &wire::encode(m),
            ),
            CompleteMessage::Ping(m) => serialize_typed(MessageType::Ping, &wire::encode(m)),
            CompleteMessage::Close(m) => serialize_typed(MessageType::Close, &wire::encode(m)),
            CompleteMessage::Request(_) => Err(SendError::RequestAsMessage),
        },
        GrizolEvent::RequestProcessed | GrizolEvent::RequestCreated => serialize_requests(requests),
    }
}

fn serialize_requests(requests: &Vec<Request>) -> (r: Result<Vec<u8>, SendError>)
    ensures
        if requests_sendable(crate::views(requests@)) {
            r matches Ok(data) && data@ == request_frames(crate::views(requests@))
        } else {
            r == Err::<Vec<u8>, SendError>(SendError::TooLong)
        },
{
    let ghost all = crate::views(requests@);
    let mut data: Vec<u8> = Vec::new();
    let mut i: usize = 0;
    while i < requests.len()
        invariant
            i <= requests@.len(),
            all == crate::views(requests@),
            data@ == request_frames(all.take(i as int)),
            forall|j: int|
                0 <= j < i ==> sendable(CompleteMessageView::Request(#[trigger] all[j])),
        decreases requests@.len() - i,
    {
        proof {
            assert(all.take(i + 1).drop_last() =~= all.take(i as int));
            assert(all[i as int] == requests@[i as int]@);
        }
        match serialize_typed(MessageType::Request, &wire::encode(&requests[i])) {
            Ok(message) => {
                append(&mut data, &message);
            },
            Err(e) => {
                return Err(e);
            },
        }
        i += 1;
    }
    assert(all.take(all.len() as int) =~= all);
    Ok(data)
}

// ---------------------------------------------------------------------------
// What is sent is understood

/// A hello is read back as it was sent, whatever follows it.
pub proof fn law_hello_round_trip(hello: HelloView, tail: Seq<u8>)
    requires
        sendable(CompleteMessageView::Hello(hello)),
    ensures
        bep_data_parser::drain(
            BepAuthStatus::PreHello,
            frame_of(CompleteMessageView::Hello(hello)) + tail,
        ) == bep_data_parser::prepended(
            seq![CompleteMessageView::Hello(hello)],
            bep_data_parser::drain(BepAuthStatus::PostHello, tail),
        ),
{
    let raw = wire::encoded::<Hello>(hello);
    let s = hello_frame(raw);
    wire::lemma_decode_encode::<Hello>(hello);
    assert(s.take(4) =~= MAGIC_NUMBER@);
    assert(s.skip(HELLO_START as int) =~= raw);
    assert(s[4] == (raw.len() / 256) as u8 && s[5] == (raw.len() % 256) as u8);
    reveal(bep_data_parser::message_of);
    bep_data_parser::lemma_drain_message(
        BepAuthStatus::PreHello,
        s,
        tail,
        CompleteMessageView::Hello(hello),
    );
}

/// Decoding the body of a message by its type gives the message back.
proof fn lemma_body_back(m: CompleteMessageView)
    requires
        type_of(m) is Some,
        body_of(m).len() <= u64::MAX,
    ensures
        bep_data_parser::message_of_type(type_of(m)->0.number(), body_of(m)) == Ok::<
            CompleteMessageView,
            bep_data_parser::ParseError,
        >(m),
{
    match m {
        CompleteMessageView::Hello(x) => {},
        CompleteMessageView::ClusterConfig(x) => wire::lemma_decode_encode::<ClusterConfig>(x),
        CompleteMessageView::Index(x) => wire::lemma_decode_encode::<Index>(x),
        CompleteMessageView::IndexUpdate(x) => wire::lemma_decode_encode::<IndexUpdate>(x),
        CompleteMessageView::Request(x) => wire::lemma_decode_encode::<Request>(x),
        CompleteMessageView::Response(x) => wire::lemma_decode_encode::<Response>(x),
        CompleteMessageView::DownloadProgress(x) => wire::lemma_decode_encode::<DownloadProgress>(x),
        CompleteMessageView::Ping(x) => wire::lemma_decode_encode::<Ping>(x),
        CompleteMessageView::Close(x) => wire::lemma_decode_encode::<Close>(x),
    }
}

/// After the hello, a message is read back as it was sent, whatever follows it.
pub proof fn law_message_round_trip(m: CompleteMessageView, tail: Seq<u8>)
    requires
        !(m is Hello),
        sendable(m),
    ensures
        bep_data_parser::drain(BepAuthStatus::PostHello, frame_of(m) + tail)
            == bep_data_parser::prepended(
            seq![m],
            bep_data_parser::drain(BepAuthStatus::PostHello, tail),
        ),
{
    let header = plain_header(type_of(m)->0);
    let h = wire::encoded::<Header>(header);
    let raw = body_of(m);
    let s = message_frame(header, raw);
    lemma_header_len(header);
    wire::lemma_decode_encode::<Header>(header);
    assert(s[0] == (h.len() / 256) as u8 && s[1] == (h.len() % 256) as u8);
    assert(bep_data_parser::header_end(s) == HEADER_START + h.len());
    assert(s.subrange(HEADER_START as int, HEADER_START + h.len()) =~= h);
    let at: int = HEADER_START + h.len();
    assert(s.subrange(at, at + 4) =~= u32_bytes(raw.len()));
    assert(s[at] == s.subrange(at, at + 4)[0]);
    assert(s[at + 1] == s.subrange(at, at + 4)[1]);
    assert(s[at + 2] == s.subrange(at, at + 4)[2]);
    assert(s[at + 3] == s.subrange(at, at + 4)[3]);
    assert(bep_data_parser::u32_at(s, at) == raw.len());
    assert(s.skip(at + 4) =~= raw);
    lemma_body_back(m);
    reveal(bep_data_parser::message_of);
    bep_data_parser::lemma_drain_message(BepAuthStatus::PostHello, s, tail, m);
}

/// After the hello, requests are read back in the order in which they were sent.
pub proof fn law_requests_round_trip(rs: Seq<RequestView>, tail: Seq<u8>)
    requires
        requests_sendable(rs),
    ensures
        bep_data_parser::drain(BepAuthStatus::PostHello, request_frames(rs) + tail)
            == bep_data_parser::prepended(
            rs.map_values(|r: RequestView| CompleteMessageView::Request(r)),
            bep_data_parser::drain(BepAuthStatus::PostHello, tail),
        ),
    decreases rs.len(),
{
    let as_message = |r: RequestView| CompleteMessageView::Request(r);
    let rest = bep_data_parser::drain(BepAuthStatus::PostHello, tail);
    if rs.len() == 0 {
        assert(request_frames(rs) + tail =~= tail);
        assert(rs.map_values(as_message) + rest.messages =~= rest.messages);
    } else {
        let frame = frame_of(CompleteMessageView::Request(rs.last()));
        assert(sendable(CompleteMessageView::Request(rs[rs.len() - 1])));
        assert(request_frames(rs) + tail =~= request_frames(rs.drop_last()) + (frame + tail));
        law_requests_round_trip(rs.drop_last(), frame + tail);
        law_message_round_trip(CompleteMessageView::Request(rs.last()), tail);
        assert(rs.drop_last().map_values(as_message) + (seq![as_message(rs.last())] + rest.messages)
            =~= rs.map_values(as_message) + rest.messages);
    }
}

} // verus!
