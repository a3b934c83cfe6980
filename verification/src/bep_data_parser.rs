//! Cutting what a peer sends into messages.
//!
//! A connection starts with one hello; then come messages, each behind a header.
//! Data arrives in pieces of any size, so the parser keeps what has come of the
//! message that is not complete yet.

use vstd::prelude::*;
use vstd::slice::slice_subrange;
use crate::syncthing::{
    Close, CloseView, ClusterConfig, ClusterConfigView, DownloadProgress, DownloadProgressView,
    Header, HeaderView, Hello, HelloView, Index, IndexUpdate, IndexUpdateView, IndexView,
    MessageCompression, MessageType, Ping, PingView, Request, RequestView, Response, ResponseView,
};
use crate::wire;

verus! {

/// The bytes that a hello starts with.
pub const MAGIC_NUMBER: [u8; 4] = [0x2e, 0xa7, 0xd9, 0x0b];

pub const HELLO_LEN_START: usize = 4;

pub const HELLO_START: usize = 6;

pub const HEADER_START: usize = 2;

/// Why the data of a peer could not be understood.
#[derive(Debug, Clone, Copy, PartialEq, Eq, Structural)]
pub enum ParseError {
    /// The hello message does not start with the magic number.
    NoMagicHello,
    /// The hello is not well formed.
    BadHello,
    /// The header is not well formed.
    BadHeader,
    /// The message cannot be decompressed.
    BadCompression,
    /// The header names a type of message that does not exist.
    UnknownType,
    /// The message is not well formed.
    BadMessage,
}

/// How an error is reported.
pub open spec fn error_text(e: ParseError) -> Seq<char> {
    "Got error when dealing with complete message: "@ + match e {
        ParseError::NoMagicHello => "NoMagicHello"@,
        ParseError::BadHello => "Error: the hello cannot be decoded"@,
        ParseError::BadHeader => "Error: the header cannot be decoded"@,
        ParseError::BadCompression => "Error: the message cannot be decompressed"@,
        ParseError::UnknownType => "Error: the type of the message is not known"@,
        ParseError::BadMessage => "Error: the message cannot be decoded"@,
    }
}

impl ParseError {
    /// How the error is reported. Where in a message decoding failed is not part of the text.
    pub fn to_text(&self) -> (r: String)
        ensures
            r@ == error_text(*self),
    {
        let mut out = "Got error when dealing with complete message: ".to_owned();
        let reason = match self {
            ParseError::NoMagicHello => "NoMagicHello",
            ParseError::BadHello => "Error: the hello cannot be decoded",
            ParseError::BadHeader => "Error: the header cannot be decoded",
            ParseError::BadCompression => "Error: the message cannot be decompressed",
            ParseError::UnknownType => "Error: the type of the message is not known",
            ParseError::BadMessage => "Error: the message cannot be decoded",
        };
        out.append(reason);
        out
    }
}

/// Whether the hello of the peer has come.
#[derive(Debug, Clone, Copy, PartialEq, Eq, Structural)]
pub enum BepAuthStatus {
    PreHello,
    PostHello,
}

#[derive(Debug, Clone, Copy, PartialEq, Eq, Structural)]
enum IncomingMessageStatus {
    Incomplete,
    Complete,
}

/// A message that has come whole.
#[derive(Debug, PartialEq)]
pub enum CompleteMessage {
    Hello(Hello),
    ClusterConfig(ClusterConfig),
    Index(Index),
    IndexUpdate(IndexUpdate),
    Request(Request),
    Response(Response),
    DownloadProgress(DownloadProgress),
    Ping(Ping),
    Close(Close),
}

#[verifier::ext_equal]
pub enum CompleteMessageView {
    Hello(HelloView),
    ClusterConfig(ClusterConfigView),
    Index(IndexView),
    IndexUpdate(IndexUpdateView),
    Request(RequestView),
    Response(ResponseView),
    DownloadProgress(DownloadProgressView),
    Ping(PingView),
    Close(CloseView),
}

impl View for CompleteMessage {
    type V = CompleteMessageView;

    open spec fn view(&self) -> CompleteMessageView {
        match *self {
            CompleteMessage::Hello(m) => CompleteMessageView::Hello(m@),
            CompleteMessage::ClusterConfig(m) => CompleteMessageView::ClusterConfig(m@),
            CompleteMessage::Index(m) => CompleteMessageView::Index(m@),
            CompleteMessage::IndexUpdate(m) => CompleteMessageView::IndexUpdate(m@),
            CompleteMessage::Request(m) => CompleteMessageView::Request(m@),
            CompleteMessage::Response(m) => CompleteMessageView::Response(m@),
            CompleteMessage::DownloadProgress(m) => CompleteMessageView::DownloadProgress(m@),
            CompleteMessage::Ping(m) => CompleteMessageView::Ping(m@),
            CompleteMessage::Close(m) => CompleteMessageView::Close(m@),
        }
    }
}

impl Clone for CompleteMessage {
    fn clone(&self) -> (r: Self)
        ensures
            r@ == self@,
    {
        match self {
            CompleteMessage::Hello(m) => CompleteMessage::Hello(m.clone()),
            CompleteMessage::ClusterConfig(m) => CompleteMessage::ClusterConfig(m.clone()),
            CompleteMessage::Index(m) => CompleteMessage::Index(m.clone()),
            CompleteMessage::IndexUpdate(m) => CompleteMessage::IndexUpdate(m.clone()),
            CompleteMessage::Request(m) => CompleteMessage::Request(m.clone()),
            CompleteMessage::Response(m) => CompleteMessage::Response(m.clone()),
            CompleteMessage::DownloadProgress(m) => CompleteMessage::DownloadProgress(m.clone()),
            CompleteMessage::Ping(m) => CompleteMessage::Ping(m.clone()),
            CompleteMessage::Close(m) => CompleteMessage::Close(m.clone()),
        }
    }
}

// ---------------------------------------------------------------------------
// Numbers in network order

/// The 16-bit number at position `i`, most significant byte first.
pub open spec fn u16_at(s: Seq<u8>, i: int) -> nat {
    (s[i] * 256 + s[i + 1]) as nat
}

/// The 32-bit number at position `i`, most significant byte first.
pub open spec fn u32_at(s: Seq<u8>, i: int) -> nat {
    (s[i] * 16777216 + s[i + 1] * 65536 + s[i + 2] * 256 + s[i + 3]) as nat
}

fn read_u16(buf: &[u8], i: usize) -> (r: u16)
    requires
        i + 2 <= buf@.len(),
    ensures
        r == u16_at(buf@, i as int),
{
    buf[i] as u16 * 256 + buf[i + 1] as u16
}

fn read_u32(buf: &[u8], i: usize) -> (r: u32)
    requires
        i + 4 <= buf@.len(),
    ensures
        r == u32_at(buf@, i as int),
{
    buf[i] as u32 * 16777216 + buf[i + 1] as u32 * 65536 + buf[i + 2] as u32 * 256 + buf[i + 3] as u32
}

// ---------------------------------------------------------------------------
// What a stream of bytes says

/// Where the header of a message that starts with `s` ends.
pub open spec fn header_end(s: Seq<u8>) -> nat {
    HEADER_START as nat + u16_at(s, 0)
}

/// The header of a message that starts with `s`, where it is there and well formed.
pub open spec fn header_of(s: Seq<u8>) -> Option<HeaderView> {
    if s.len() >= HEADER_START && s.len() >= header_end(s) {
        wire::decoded::<Header>(s.subrange(HEADER_START as int, header_end(s) as int))
    } else {
        None
    }
}

/// The header has come and is not well formed.
pub open spec fn bad_header(auth: BepAuthStatus, s: Seq<u8>) -> bool {
    &&& auth == BepAuthStatus::PostHello
    &&& s.len() >= HEADER_START
    &&& s.len() >= header_end(s)
    &&& header_of(s) is None
}

/// How many bytes the message that starts `s` takes, once that can be told.
pub open spec fn frame_len(auth: BepAuthStatus, s: Seq<u8>) -> Option<nat> {
    match auth {
        BepAuthStatus::PreHello => if s.len() >= HELLO_START {
            Some(HELLO_START as nat + u16_at(s, HELLO_LEN_START as int))
        } else {
            None
        },
        BepAuthStatus::PostHello => if s.len() >= HEADER_START && s.len() >= header_end(s) + 4 {
            Some(header_end(s) + 4 + u32_at(s, header_end(s) as int))
        } else {
            None
        },
    }
}

/// The message that starts `s` has come whole.
pub open spec fn is_complete(auth: BepAuthStatus, s: Seq<u8>) -> bool {
    match frame_len(auth, s) {
        Some(n) => n <= s.len(),
        None => false,
    }
}

/// The number at position `i` of a block: the sum of the bytes up to the first one below
/// 255.
pub open spec fn length_at(s: Seq<u8>, i: int) -> nat
    decreases s.len() - i,
{
    if i < 0 || i >= s.len() {
        0
    } else if s[i] == 255 {
        255 + length_at(s, i + 1)
    } else {
        s[i] as nat
    }
}

/// Where the number at position `i` of a block ends.
pub open spec fn length_end(s: Seq<u8>, i: int) -> int
    decreases s.len() - i,
{
    if i < 0 || i >= s.len() {
        i
    } else if s[i] == 255 {
        length_end(s, i + 1)
    } else {
        i + 1
    }
}

/// Where the literals behind the token at position `i` of a block start.
pub open spec fn literals_start(s: Seq<u8>, i: int) -> int {
    if s[i] / 16 == 15 {
        length_end(s, i + 1)
    } else {
        i + 1
    }
}

/// How many literals there are behind the token at position `i` of a block.
pub open spec fn literals_len(s: Seq<u8>, i: int) -> nat {
    if s[i] / 16 == 15 {
        15 + length_at(s, i + 1)
    } else {
        (s[i] / 16) as nat
    }
}

/// From the token at position `i` of a block on, no length is written that 32 bits do not
/// hold. A token says how many literals and how many repeated bytes there are, and a length
/// above 14 goes on behind it: behind the token itself, and behind the two bytes that follow
/// the literals.
pub open spec fn lengths_fit(s: Seq<u8>, i: int) -> bool
    decreases s.len() - i,
{
    if i < 0 || i >= s.len() {
        true
    } else {
        let next = literals_start(s, i) + literals_len(s, i) + 2;
        proof {
            lemma_length_end(s, i + 1);
            if next <= s.len() {
                lemma_length_end(s, next);
            }
        }
        if s[i] / 16 == 15 && length_at(s, i + 1) > u32::MAX {
            false
        } else if next > s.len() {
            true
        } else if s[i] % 16 == 15 {
            if length_at(s, next) > u32::MAX {
                false
            } else {
                lengths_fit(s, length_end(s, next))
            }
        } else {
            lengths_fit(s, next)
        }
    }
}

/// A number ends behind where it starts, within the block.
pub proof fn lemma_length_end(s: Seq<u8>, i: int)
    requires
        0 <= i <= s.len(),
    ensures
        i <= length_end(s, i) <= s.len(),
    decreases s.len() - i,
{
    if i < s.len() && s[i] == 255 {
        lemma_length_end(s, i + 1);
    }
}

/// What `lz4_flex::decompress` makes of a block that should give `size` bytes at
/// most; none where it reports an error.
pub uninterp spec fn lz4_block(block: Seq<u8>, size: u32) -> Option<Seq<u8>>;

/// The content of a compressed message: its size, then the compressed block.
pub open spec fn decompressed(body: Seq<u8>) -> Option<Seq<u8>> {
    if body.len() >= 4 && lengths_fit(body.skip(4), 0) {
        lz4_block(body.skip(4), u32_at(body, 0) as u32)
    } else {
        None
    }
}

/// The message of the given type that `raw` encodes.
pub open spec fn message_of_type(message_type: i32, raw: Seq<u8>) -> Result<
    CompleteMessageView,
    ParseError,
> {
    if message_type == MessageType::ClusterConfig.number() {
        match wire::decoded::<ClusterConfig>(raw) {
            Some(m) => Ok(CompleteMessageView::ClusterConfig(m)),
            None => Err(ParseError::BadMessage),
        }
    } else if message_type == MessageType::Index.number() {
        match wire::decoded::<Index>(raw) {
            Some(m) => Ok(CompleteMessageView::Index(m)),
            None => Err(ParseError::BadMessage),
        }
    } else if message_type == MessageType::IndexUpdate.number() {
        match wire::decoded::<IndexUpdate>(raw) {
            Some(m) => Ok(CompleteMessageView::IndexUpdate(m)),
            None => Err(ParseError::BadMessage),
        }
    } else if message_type == MessageType::Request.number() {
        match wire::decoded::<Request>(raw) {
            Some(m) => Ok(CompleteMessageView::Request(m)),
            None => Err(ParseError::BadMessage),
        }
    } else if message_type == MessageType::Response.number() {
        match wire::decoded::<Response>(raw) {
            Some(m) => Ok(CompleteMessageView::Response(m)),
            None => Err(ParseError::BadMessage),
        }
    } else if message_type == MessageType::DownloadProgress.number() {
        match wire::decoded::<DownloadProgress>(raw) {
            Some(m) => Ok(CompleteMessageView::DownloadProgress(m)),
            None => Err(ParseError::BadMessage),
        }
    } else if message_type == MessageType::Ping.number() {
        match wire::decoded::<Ping>(raw) {
            Some(m) => Ok(CompleteMessageView::Ping(m)),
            None => Err(ParseError::BadMessage),
        }
    } else if message_type == MessageType::Close.number() {
        match wire::decoded::<Close>(raw) {
            Some(m) => Ok(CompleteMessageView::Close(m)),
            None => Err(ParseError::BadMessage),
        }
    } else {
        Err(ParseError::UnknownType)
    }
}

/// The message behind `header`, given its bytes and what they decompress to.
pub open spec fn message_of_body(
    header: HeaderView,
    body: Seq<u8>,
    inflated: Option<Seq<u8>>,
) -> Result<CompleteMessageView, ParseError> {
    if header.compression == MessageCompression::Lz4.number() {
        match inflated {
            Some(raw) => message_of_type(header.message_type, raw),
            None => Err(ParseError::BadCompression),
        }
    } else {
        message_of_type(header.message_type, body)
    }
}

/// The message that the bytes `s`, all of them, are.
#[verifier::opaque]
pub open spec fn message_of(auth: BepAuthStatus, s: Seq<u8>) -> Result<
    CompleteMessageView,
    ParseError,
> {
    match auth {
        BepAuthStatus::PreHello => if s.len() < HELLO_LEN_START || s.take(HELLO_LEN_START as int)
            != MAGIC_NUMBER@ {
            Err(ParseError::NoMagicHello)
        } else {
            match wire::decoded::<Hello>(s.skip(HELLO_START as int)) {
                Some(m) => Ok(CompleteMessageView::Hello(m)),
                None => Err(ParseError::BadHello),
            }
        },
        BepAuthStatus::PostHello => match header_of(s) {
            None => Err(ParseError::BadHeader),
            Some(header) => {
                let body = s.skip(header_end(s) as int + 4);
                message_of_body(header, body, decompressed(body))
            },
        },
    }
}

/// What a stream of bytes comes to: the messages in it, the bytes after them, and
/// the error that the first of these bytes make, if any.
#[verifier::ext_equal]
pub struct Drained {
    pub auth: BepAuthStatus,
    pub messages: Seq<CompleteMessageView>,
    pub rest: Seq<u8>,
    pub error: Option<ParseError>,
}

#[verifier::opaque]
pub open spec fn drain(auth: BepAuthStatus, s: Seq<u8>) -> Drained
    decreases s.len(),
{
    if bad_header(auth, s) {
        Drained {
            auth,
            messages: Seq::empty(),
            rest: s.take(header_end(s) as int),
            error: Some(ParseError::BadHeader),
        }
    } else if is_complete(auth, s) {
        let n = frame_len(auth, s)->0;
        match message_of(auth, s.take(n as int)) {
            Err(e) => Drained {
                auth: BepAuthStatus::PostHello,
                messages: Seq::empty(),
                rest: s.take(n as int),
                error: Some(e),
            },
            Ok(m) => prepended(seq![m], drain(BepAuthStatus::PostHello, s.skip(n as int))),
        }
    } else {
        Drained { auth, messages: Seq::empty(), rest: s, error: None }
    }
}

/// The same, with messages that came before.
pub open spec fn prepended(before: Seq<CompleteMessageView>, d: Drained) -> Drained {
    Drained { messages: before + d.messages, ..d }
}

/// A whole message is followed by what the rest comes to.
pub proof fn lemma_drain_message(
    auth: BepAuthStatus,
    s: Seq<u8>,
    tail: Seq<u8>,
    m: CompleteMessageView,
)
    requires
        !bad_header(auth, s),
        frame_len(auth, s) == Some(s.len()),
        message_of(auth, s) == Ok::<CompleteMessageView, ParseError>(m),
    ensures
        drain(auth, s + tail) == prepended(seq![m], drain(BepAuthStatus::PostHello, tail)),
{
    reveal(drain);
    lemma_prefix(auth, s, tail);
    assert(s.take(s.len() as int) =~= s);
    assert(s.skip(s.len() as int) + tail =~= tail);
    assert(auth == BepAuthStatus::PostHello ==> header_of(s) is Some);
    assert(!bad_header(auth, s + tail));
}

/// What follows a message that cannot be understood does not count.
proof fn lemma_drain_failure(auth: BepAuthStatus, s: Seq<u8>, tail: Seq<u8>, e: ParseError)
    requires
        !bad_header(auth, s),
        frame_len(auth, s) == Some(s.len()),
        message_of(auth, s) == Err::<CompleteMessageView, ParseError>(e),
    ensures
        drain(auth, s + tail) == (Drained {
            auth: BepAuthStatus::PostHello,
            messages: Seq::empty(),
            rest: s,
            error: Some(e),
        }),
{
    reveal(drain);
    lemma_prefix(auth, s, tail);
    assert(s.take(s.len() as int) =~= s);
    assert(auth == BepAuthStatus::PostHello ==> header_of(s) is Some);
    assert(!bad_header(auth, s + tail));
}

/// What follows a malformed header does not count.
proof fn lemma_drain_bad_header(auth: BepAuthStatus, s: Seq<u8>, tail: Seq<u8>)
    requires
        bad_header(auth, s),
        s.len() == header_end(s),
    ensures
        drain(auth, s + tail) == (Drained {
            auth,
            messages: Seq::empty(),
            rest: s,
            error: Some(ParseError::BadHeader),
        }),
{
    reveal(drain);
    lemma_prefix(auth, s, tail);
    assert(s.take(s.len() as int) =~= s);
}

/// What the start of a stream tells of its first message stays so when more comes.
proof fn lemma_prefix(auth: BepAuthStatus, s: Seq<u8>, t: Seq<u8>)
    ensures
        bad_header(auth, s) ==> bad_header(auth, s + t) && header_end(s + t) == header_end(s) && (s
            + t).take(header_end(s) as int) == s.take(header_end(s) as int),
        header_of(s) is Some ==> header_of(s + t) == header_of(s) && header_end(s + t)
            == header_end(s),
        is_complete(auth, s) ==> frame_len(auth, s + t) == frame_len(auth, s) && (s + t).take(
            frame_len(auth, s)->0 as int,
        ) == s.take(frame_len(auth, s)->0 as int) && (s + t).skip(frame_len(auth, s)->0 as int)
            == s.skip(frame_len(auth, s)->0 as int) + t,
{
    let st = s + t;
    if s.len() >= HEADER_START && s.len() >= header_end(s) {
        assert(header_end(st) == header_end(s));
        assert(st.subrange(HEADER_START as int, header_end(s) as int) =~= s.subrange(
            HEADER_START as int,
            header_end(s) as int,
        ));
        assert(st.take(header_end(s) as int) =~= s.take(header_end(s) as int));
    }
    if is_complete(auth, s) {
        let n = frame_len(auth, s)->0 as int;
        assert(st.take(n) =~= s.take(n));
        assert(st.skip(n) =~= s.skip(n) + t);
    }
}

/// How the data is cut does not matter: what two pieces come to, one after the
/// other, is what they come to together.
pub proof fn law_chunking(auth: BepAuthStatus, s: Seq<u8>, t: Seq<u8>)
    ensures
        drain(auth, s).error is None ==> drain(auth, s + t) == prepended(
            drain(auth, s).messages,
            drain(drain(auth, s).auth, drain(auth, s).rest + t),
        ),
        drain(auth, s).error is Some ==> drain(auth, s + t) == drain(auth, s),
    decreases s.len(),
{
    reveal(drain);
    lemma_prefix(auth, s, t);
    if bad_header(auth, s) {
    } else if is_complete(auth, s) {
        let n = frame_len(auth, s)->0 as int;
        assert(!bad_header(auth, s + t)) by {
            if auth == BepAuthStatus::PostHello {
                assert(header_of(s) is Some);
            }
        }
        if message_of(auth, s.take(n)) is Ok {
            let tail = s.skip(n);
            law_chunking(BepAuthStatus::PostHello, tail, t);
            let d = drain(BepAuthStatus::PostHello, tail);
            let e = drain(d.auth, d.rest + t);
            let m = message_of(auth, s.take(n))->Ok_0;
            assert(seq![m] + (d.messages + e.messages) =~= (seq![m] + d.messages) + e.messages);
        }
    } else {
        let d = drain(auth, s + t);
        assert(prepended(Seq::empty(), d).messages =~= d.messages);
    }
}

// ---------------------------------------------------------------------------
// Messages that have come whole

/// Calls `lz4_flex::decompress`. Its result is named by `lz4_block`: it depends on
/// the block and the size alone. A length that is too large would overflow the 32-bit sum
/// that it adds its bytes up in.
#[verifier::external_body]
fn lz4_decompress(block: &[u8], size: u32) -> (r: Option<Vec<u8>>)
    requires
        lengths_fit(block@, 0),
    ensures
        match r {
            Some(v) => lz4_block(block@, size) == Some(v@),
            None => lz4_block(block@, size) is None,
        },
{
    lz4_flex::decompress(block, size as usize).ok()
}

/// The number at a position of a block, and where it ends; none where 32 bits do not hold
/// it.
fn read_length(buf: &[u8], i: usize) -> (r: Option<(u32, usize)>)
    requires
        i <= buf@.len(),
    ensures
        match r {
            Some(x) => x.0 == length_at(buf@, i as int) && x.1 == length_end(buf@, i as int)
                && i <= x.1 <= buf@.len(),
            None => length_at(buf@, i as int) > u32::MAX,
        },
{
    let mut sum: u64 = 0;
    let mut k: usize = i;
    while k < buf.len() && buf[k] == 255
        invariant
            i <= k <= buf@.len(),
            sum <= u32::MAX,
            length_at(buf@, i as int) == sum + length_at(buf@, k as int),
            length_end(buf@, i as int) == length_end(buf@, k as int),
        decreases buf@.len() - k,
    {
        sum += 255;
        k += 1;
        if sum > u32::MAX as u64 {
            return None;
        }
    }
    if k < buf.len() {
        sum += buf[k] as u64;
        k += 1;
    }
    if sum > u32::MAX as u64 {
        None
    } else {
        Some((sum as u32, k))
    }
}

fn check_lengths(buf: &[u8]) -> (r: bool)
    ensures
        r == lengths_fit(buf@, 0),
{
    let mut i: usize = 0;
    while i < buf.len()
        invariant
            i <= buf@.len(),
            lengths_fit(buf@, 0) == lengths_fit(buf@, i as int),
        decreases buf@.len() - i,
    {
        let token: u8 = buf[i];
        let mut literals: u64 = (token / 16) as u64;
        let mut start: usize = i + 1;
        proof {
            lemma_length_end(buf@, i + 1);
        }
        if literals == 15 {
            match read_length(buf, i + 1) {
                Some((n, end)) => {
                    literals += n as u64;
                    start = end;
                },
                None => {
                    return false;
                },
            }
        }
        if literals + 2 > (buf.len() - start) as u64 {
            return true;
        }
        let next: usize = start + literals as usize + 2;
        if token % 16 == 15 {
            proof {
                lemma_length_end(buf@, next as int);
            }
            match read_length(buf, next) {
                Some((_, end)) => {
                    i = end;
                },
                None => {
                    return false;
                },
            }
        } else {
            i = next;
        }
    }
    true
}

fn decompress(body: &[u8]) -> (r: Option<Vec<u8>>)
    ensures
        match r {
            Some(v) => decompressed(body@) == Some(v@),
            None => decompressed(body@) is None,
        },
{
    if body.len() < 4 {
        return None;
    }
    let block = slice_subrange(body, 4, body.len());
    assert(block@ =~= body@.skip(4));
    if !check_lengths(block) {
        return None;
    }
    lz4_decompress(block, read_u32(body, 0))
}

/// Decodes the message of the given type.
pub fn decode_message_of_type(message_type: i32, raw: &[u8]) -> (r: Result<
    CompleteMessage,
    ParseError,
>)
    ensures
        match message_of_type(message_type, raw@) {
            Ok(m) => r matches Ok(c) && c@ == m,
            Err(e) => r == Err::<CompleteMessage, ParseError>(e),
        },
{
    let message_type = match MessageType::from_number(message_type) {
        Some(t) => t,
        None => {
            return Err(ParseError::UnknownType);
        },
    };
    match message_type {
        MessageType::ClusterConfig => match wire::decode::<ClusterConfig>(raw) {
            Ok(m) => Ok(CompleteMessage::ClusterConfig(m)),
            Err(_) => Err(ParseError::BadMessage),
        },
        MessageType::Index => match wire::decode::<Index>(raw) {
            Ok(m) => Ok(CompleteMessage::Index(m)),
            Err(_) => Err(ParseError::BadMessage),
        },
        MessageType::IndexUpdate => match wire::decode::<IndexUpdate>(raw) {
            Ok(m) => Ok(CompleteMessage::IndexUpdate(m)),
            Err(_) => Err(ParseError::BadMessage),
        },
        MessageType::Request => match wire::decode::<Request>(raw) {
            Ok(m) => Ok(CompleteMessage::Request(m)),
            Err(_) => Err(ParseError::BadMessage),
        },
        MessageType::Response => match wire::decode::<Response>(raw) {
            Ok(m) => Ok(CompleteMessage::Response(m)),
            Err(_) => Err(ParseError::BadMessage),
        },
        MessageType::DownloadProgress => match wire::decode::<DownloadProgress>(raw) {
            Ok(m) => Ok(CompleteMessage::DownloadProgress(m)),
            Err(_) => Err(ParseError::BadMessage),
        },
        MessageType::Ping => match wire::decode::<Ping>(raw) {
            Ok(m) => Ok(CompleteMessage::Ping(m)),
            Err(_) => Err(ParseError::BadMessage),
        },
        MessageType::Close => match wire::decode::<Close>(raw) {
            Ok(m) => Ok(CompleteMessage::Close(m)),
            Err(_) => Err(ParseError::BadMessage),
        },
    }
}

/// Decodes the message behind `header`, given its bytes and what they decompress to.
pub fn decode_message_body(header: &Header, body: &[u8], inflated: &Option<Vec<u8>>) -> (r: Result<
    CompleteMessage,
    ParseError,
>)
    ensures
        match message_of_body(
            header@,
            body@,
            match *inflated {
                Some(v) => Some(v@),
                None => None,
            },
        ) {
            Ok(m) => r matches Ok(c) && c@ == m,
            Err(e) => r == Err::<CompleteMessage, ParseError>(e),
        },
{
    match MessageCompression::from_number(header.compression) {
        Some(MessageCompression::Lz4) => match inflated {
            Some(raw) => decode_message_of_type(header.message_type, raw.as_slice()),
            None => Err(ParseError::BadCompression),
        },
        _ => decode_message_of_type(header.message_type, body),
    }
}

pub open spec fn has_magic(s: Seq<u8>) -> bool {
    s.len() >= HELLO_LEN_START && s.take(HELLO_LEN_START as int) == MAGIC_NUMBER@
}

fn starts_with_magic_number(buf: &[u8]) -> (r: bool)
    ensures
        r == has_magic(buf@),
{
    if buf.len() < HELLO_LEN_START {
        return false;
    }
    let r = buf[0] == MAGIC_NUMBER[0] && buf[1] == MAGIC_NUMBER[1] && buf[2] == MAGIC_NUMBER[2]
        && buf[3] == MAGIC_NUMBER[3];
    proof {
        let s = buf@.take(HELLO_LEN_START as int);
        if r {
            assert(s =~= MAGIC_NUMBER@);
        } else if s == MAGIC_NUMBER@ {
            assert(s[0] == MAGIC_NUMBER@[0]);
            assert(s[1] == MAGIC_NUMBER@[1]);
            assert(s[2] == MAGIC_NUMBER@[2]);
            assert(s[3] == MAGIC_NUMBER@[3]);
        }
    }
    r
}

fn decode_hello(buf: &[u8]) -> (r: Result<CompleteMessage, ParseError>)
    requires
        is_complete(BepAuthStatus::PreHello, buf@),
        frame_len(BepAuthStatus::PreHello, buf@) == Some(buf@.len()),
    ensures
        match message_of(BepAuthStatus::PreHello, buf@) {
            Ok(m) => r matches Ok(c) && c@ == m,
            Err(e) => r == Err::<CompleteMessage, ParseError>(e),
        },
{
    reveal(message_of);
    if !starts_with_magic_number(buf) {
        return Err(ParseError::NoMagicHello);
    }
    let message_byte_size: usize = read_u16(buf, HELLO_LEN_START) as usize;
    let raw = slice_subrange(buf, HELLO_START, HELLO_START + message_byte_size);
    assert(raw@ =~= buf@.skip(HELLO_START as int));
    match wire::decode::<Hello>(raw) {
        Ok(m) => Ok(CompleteMessage::Hello(m)),
        Err(_) => Err(ParseError::BadHello),
    }
}

enum HeaderState {
    NotEnoughHeaderLenData,
    NotEnoughHeaderData,
    Parsed(Header),
    Malformed,
}

fn try_parse_header(buf: &[u8]) -> (r: HeaderState)
    ensures
        match r {
            HeaderState::NotEnoughHeaderLenData => buf@.len() < HEADER_START,
            HeaderState::NotEnoughHeaderData => HEADER_START <= buf@.len() < header_end(buf@),
            HeaderState::Parsed(header) => header_of(buf@) == Some(header@),
            HeaderState::Malformed => bad_header(BepAuthStatus::PostHello, buf@),
        },
{
    if buf.len() < HEADER_START {
        return HeaderState::NotEnoughHeaderLenData;
    }
    let header_byte_len: usize = read_u16(buf, 0) as usize;
    let header_end: usize = HEADER_START + header_byte_len;
    if buf.len() < header_end {
        return HeaderState::NotEnoughHeaderData;
    }
    match wire::decode::<Header>(slice_subrange(buf, HEADER_START, header_end)) {
        Ok(header) => HeaderState::Parsed(header),
        Err(_) => HeaderState::Malformed,
    }
}

// ---------------------------------------------------------------------------
// The message that is coming in

#[derive(Debug)]
struct IncomingMessage {
    auth_status: BepAuthStatus,
    data: Vec<u8>,
    header: Option<Header>,
}

/// The bytes `s` go no further than the message that they start.
spec fn within_frame(auth: BepAuthStatus, s: Seq<u8>) -> bool {
    match auth {
        BepAuthStatus::PreHello => s.len() <= HELLO_START || s.len() <= frame_len(auth, s)->0,
        BepAuthStatus::PostHello => {
            ||| s.len() <= HEADER_START
            ||| s.len() <= header_end(s)
            ||| header_of(s) is Some && s.len() <= header_end(s) + 4
            ||| header_of(s) is Some && s.len() <= frame_len(auth, s)->0
        },
    }
}

impl IncomingMessage {
    spec fn wf(self) -> bool {
        &&& self.data@.len() > 0
        &&& within_frame(self.auth_status, self.data@)
        &&& match self.auth_status {
            BepAuthStatus::PreHello => self.header is None,
            BepAuthStatus::PostHello => wire::view_option(self.header) == header_of(self.data@),
        }
    }

    fn new(auth_status: BepAuthStatus) -> (r: Self)
        ensures
            r.auth_status == auth_status,
            r.data@ == Seq::<u8>::empty(),
            r.header is None,
    {
        IncomingMessage { auth_status, data: Vec::new(), header: None }
    }

    fn status(&self) -> (r: IncomingMessageStatus)
        requires
            self.wf(),
        ensures
            (r == IncomingMessageStatus::Complete) <==> (is_complete(self.auth_status, self.data@)
                && !bad_header(self.auth_status, self.data@)),
    {
        match self.auth_status {
            BepAuthStatus::PreHello => match self.message_byte_len() {
                Some(mbl) => if self.data.len() as u64 == HELLO_START as u64 + mbl as u64 {
                    IncomingMessageStatus::Complete
                } else {
                    IncomingMessageStatus::Incomplete
                },
                None => IncomingMessageStatus::Incomplete,
            },
            BepAuthStatus::PostHello => {
                if self.header.is_none() {
                    IncomingMessageStatus::Incomplete
                } else {
                    match self.missing_message_bytes() {
                        Some(0) => IncomingMessageStatus::Complete,
                        _ => IncomingMessageStatus::Incomplete,
                    }
                }
            },
        }
    }

    fn total_byte_len(&self) -> (r: usize)
        ensures
            r == self.data@.len(),
    {
        self.data.len()
    }

    fn message_start_pos(&self) -> (r: usize)
        requires
            self.data@.len() >= HEADER_START,
        ensures
            r == header_end(self.data@) + 4,
    {
        let header_byte_len: usize = read_u16(self.data.as_slice(), 0) as usize;
        HEADER_START + header_byte_len + 4
    }

    fn message_byte_len(&self) -> (r: Option<u32>)
        requires
            self.wf(),
        ensures
            match self.auth_status {
                BepAuthStatus::PreHello => match r {
                    Some(n) => frame_len(self.auth_status, self.data@) == Some(
                        HELLO_START as nat + n as nat,
                    ),
                    None => frame_len(self.auth_status, self.data@) is None,
                },
                BepAuthStatus::PostHello => match r {
                    Some(n) => self.header is Some && frame_len(self.auth_status, self.data@)
                        == Some(header_end(self.data@) + 4 + n as nat),
                    None => self.header is None || frame_len(self.auth_status, self.data@) is None,
                },
            },
    {
        match self.auth_status {
            BepAuthStatus::PreHello => {
                if self.data.len() >= HELLO_START {
                    Some(read_u16(self.data.as_slice(), HELLO_LEN_START) as u32)
                } else {
                    None
                }
            },
            BepAuthStatus::PostHello => {
                if self.header.is_none() {
                    None
                } else {
                    let message_start: usize = self.message_start_pos();
                    if self.data.len() >= message_start {
                        Some(read_u32(self.data.as_slice(), message_start - 4))
                    } else {
                        None
                    }
                }
            },
        }
    }

    /// Takes in more of the message; reports whether its header is malformed.
    fn add_data(&mut self, buf: &[u8]) -> (r: Result<(), ParseError>)
        requires
            old(self).header is Some ==> header_of(old(self).data@) == Some(old(self).header->0@)
                && old(self).auth_status == BepAuthStatus::PostHello,
            old(self).header is None ==> header_of(old(self).data@) is None || old(
                self,
            ).auth_status == BepAuthStatus::PreHello,
            old(self).data@.len() + buf@.len() > 0,
            within_frame(old(self).auth_status, old(self).data@ + buf@),
        ensures
            final(self).auth_status == old(self).auth_status,
            final(self).data@ == old(self).data@ + buf@,
            final(self).wf(),
            r is Err <==> bad_header(final(self).auth_status, final(self).data@),
            r matches Err(e) ==> e == ParseError::BadHeader,
    {
        self.data.extend_from_slice(buf);
        assert(self.data@ =~= old(self).data@ + buf@);
        proof {
            lemma_prefix(self.auth_status, old(self).data@, buf@);
        }
        match self.auth_status {
            BepAuthStatus::PreHello => {},
            BepAuthStatus::PostHello => {
                if self.header.is_none() {
                    match try_parse_header(self.data.as_slice()) {
                        HeaderState::Parsed(header) => {
                            self.header = Some(header);
                        },
                        HeaderState::Malformed => {
                            return Err(ParseError::BadHeader);
                        },
                        _ => {},
                    }
                }
            },
        }
        Ok(())
    }

    fn header_byte_len(&self) -> (r: Option<usize>)
        ensures
            match r {
                Some(n) => self.data@.len() >= HEADER_START && HEADER_START + n == header_end(
                    self.data@,
                ),
                None => self.data@.len() < HEADER_START,
            },
    {
        if self.data.len() < HEADER_START {
            return None;
        }
        Some(read_u16(self.data.as_slice(), 0) as usize)
    }

    fn missing_header_bytes(&self) -> (r: Option<usize>)
        requires
            self.data@.len() >= HEADER_START ==> self.data@.len() <= header_end(self.data@),
        ensures
            match r {
                Some(n) => self.data@.len() >= HEADER_START && self.data@.len() + n == header_end(
                    self.data@,
                ),
                None => self.data@.len() < HEADER_START,
            },
    {
        match self.header_byte_len() {
            Some(header_byte_len) => Some(HEADER_START + header_byte_len - self.total_byte_len()),
            None => None,
        }
    }

    fn missing_message_bytes(&self) -> (r: Option<u64>)
        requires
            self.wf(),
            self.auth_status == BepAuthStatus::PostHello ==> self.header is Some,
        ensures
            match r {
                Some(n) => frame_len(self.auth_status, self.data@) == Some(
                    (self.data@.len() + n) as nat,
                ),
                None => frame_len(self.auth_status, self.data@) is None,
            },
    {
        match self.auth_status {
            BepAuthStatus::PreHello => match self.message_byte_len() {
                Some(mbl) => Some(mbl as u64 + HELLO_START as u64 - self.data.len() as u64),
                None => None,
            },
            BepAuthStatus::PostHello => {
                let message_start_pos: usize = self.message_start_pos();
                match self.message_byte_len() {
                    Some(mbl) => Some(mbl as u64 + message_start_pos as u64 - self.data.len() as u64),
                    None => None,
                }
            },
        }
    }

    fn to_complete_message(&self) -> (r: Result<CompleteMessage, ParseError>)
        requires
            self.wf(),
            is_complete(self.auth_status, self.data@),
            !bad_header(self.auth_status, self.data@),
        ensures
            match message_of(self.auth_status, self.data@) {
                Ok(m) => r matches Ok(c) && c@ == m,
                Err(e) => r == Err::<CompleteMessage, ParseError>(e),
            },
    {
        match self.auth_status {
            BepAuthStatus::PreHello => decode_hello(self.data.as_slice()),
            BepAuthStatus::PostHello => decode_post_hello_message(self),
        }
    }
}

fn decode_post_hello_message(im: &IncomingMessage) -> (r: Result<CompleteMessage, ParseError>)
    requires
        im.wf(),
        im.auth_status == BepAuthStatus::PostHello,
        is_complete(im.auth_status, im.data@),
        !bad_header(im.auth_status, im.data@),
    ensures
        match message_of(BepAuthStatus::PostHello, im.data@) {
            Ok(m) => r matches Ok(c) && c@ == m,
            Err(e) => r == Err::<CompleteMessage, ParseError>(e),
        },
{
    reveal(message_of);
    match &im.header {
        None => Err(ParseError::BadHeader),
        Some(header) => {
            let message_start_pos: usize = im.message_start_pos();
            let body = slice_subrange(im.data.as_slice(), message_start_pos, im.data.len());
            assert(body@ =~= im.data@.skip(message_start_pos as int));
            let inflated = match MessageCompression::from_number(header.compression) {
                Some(MessageCompression::Lz4) => decompress(body),
                _ => None,
            };
            decode_message_body(header, body, &inflated)
        },
    }
}

// ---------------------------------------------------------------------------
// The parser

/// Turns the data of one connection into messages.
#[derive(Debug)]
pub struct BepDataParser {
    bep_auth_status: BepAuthStatus,
    incoming_message: Option<IncomingMessage>,
}

/// What the parser remembers: whether the hello has come, and the bytes of the
/// message that has not come whole.
#[verifier::ext_equal]
pub struct ParserView {
    pub auth: BepAuthStatus,
    pub pending: Seq<u8>,
}

impl View for BepDataParser {
    type V = ParserView;

    closed spec fn view(&self) -> ParserView {
        ParserView {
            auth: self.bep_auth_status,
            pending: match self.incoming_message {
                Some(im) => im.data@,
                None => Seq::empty(),
            },
        }
    }
}

impl BepDataParser {
    /// What is kept of a message fits the state of the connection.
    pub closed spec fn wf(&self) -> bool {
        match self.incoming_message {
            Some(im) => {
                &&& im.wf()
                &&& im.auth_status == self.bep_auth_status
                &&& is_complete(im.auth_status, im.data@) && !bad_header(im.auth_status, im.data@)
                    ==> message_of(im.auth_status, im.data@) is Err
            },
            None => true,
        }
    }

    pub fn new() -> (r: Self)
        ensures
            r.wf(),
            r@ == (ParserView { auth: BepAuthStatus::PreHello, pending: Seq::empty() }),
    {
        BepDataParser { bep_auth_status: BepAuthStatus::PreHello, incoming_message: None }
    }

    /// Takes in the data that came next and returns the messages that it completes.
    ///
    /// A parser that reported an error before the hello was complete is of no
    /// further use; one that did so later reports the same error again.
    pub fn parse_incoming_data(&mut self, buf: &[u8]) -> (r: Result<
        Vec<CompleteMessage>,
        ParseError,
    >)
        requires
            old(self).wf(),
        ensures
            buf@.len() == 0 ==> final(self)@ == old(self)@ && final(self).wf() && (r matches Ok(ms)
                && ms@.len() == 0),
            buf@.len() > 0 ==> {
                let d = drain(old(self)@.auth, old(self)@.pending + buf@);
                &&& final(self)@ == (ParserView { auth: d.auth, pending: d.rest })
                &&& match d.error {
                    None => r matches Ok(ms) && crate::views(ms@) == d.messages,
                    Some(e) => r == Err::<Vec<CompleteMessage>, ParseError>(e),
                }
                &&& d.error is None || old(self)@.auth == BepAuthStatus::PostHello
                    ==> final(self).wf()
            },
    {
        let ghost total = drain(self@.auth, self@.pending + buf@);
        let ghost start = self@.auth;
        let mut processed_bytes: usize = 0;
        let mut res: Vec<CompleteMessage> = Vec::new();
        assert(buf@.skip(0) =~= buf@);
        assert(crate::views(res@) =~= Seq::empty());
        assert(Seq::empty() + total.messages =~= total.messages);
        while processed_bytes < buf.len()
            invariant
                processed_bytes <= buf@.len(),
                self.wf(),
                total == prepended(
                    crate::views(res@),
                    drain(self@.auth, self@.pending + buf@.skip(processed_bytes as int)),
                ),
                processed_bytes == 0 ==> res@.len() == 0 && *self == *old(self),
                processed_bytes > 0 ==> !is_complete(self@.auth, self@.pending) && !bad_header(
                    self@.auth,
                    self@.pending,
                ),
                start == BepAuthStatus::PostHello ==> self@.auth == BepAuthStatus::PostHello,
                start == old(self)@.auth,
                total == drain(old(self)@.auth, old(self)@.pending + buf@),
            decreases buf@.len() - processed_bytes,
        {
            let next = slice_subrange(buf, processed_bytes, buf.len());
            let ghost pending = self@.pending;
            let ghost auth = self@.auth;
            assert(next@ =~= buf@.skip(processed_bytes as int));
            let populated = match self.bep_auth_status {
                BepAuthStatus::PreHello => self.populate_hello(next),
                BepAuthStatus::PostHello => {
                    let is_header_missing = match &self.incoming_message {
                        Some(im) => im.header.is_none(),
                        None => true,
                    };
                    if is_header_missing {
                        self.populate_header(next)
                    } else {
                        self.populate_message(next)
                    }
                },
            };
            let taken: usize = match populated {
                Ok(n) => n,
                Err(e) => {
                    proof {
                        let k = self@.pending.len() - pending.len();
                        lemma_split(pending, next@, k);
                        lemma_drain_bad_header(auth, self@.pending, next@.skip(k));
                    }
                    return Err(e);
                },
            };
            let ghost tail = next@.skip(taken as int);
            proof {
                lemma_split(pending, next@, taken as int);
                assert(tail =~= buf@.skip(processed_bytes + taken));
                assert(drain(auth, pending + next@) == drain(auth, self@.pending + tail));
            }
            match self.completed() {
                Some(Ok(cm)) => {
                    proof {
                        let d = drain(BepAuthStatus::PostHello, tail);
                        lemma_drain_message(auth, self@.pending, tail, cm@);
                        crate::lemma_views_push(res@, cm);
                        assert(crate::views(res@) + (seq![cm@] + d.messages) =~= crate::views(
                            res@,
                        ).push(cm@) + d.messages);
                        assert(Seq::<u8>::empty() + tail =~= tail);
                    }
                    self.bep_auth_status = BepAuthStatus::PostHello;
                    res.push(cm);
                    self.incoming_message = None;
                    assert(self@.pending =~= Seq::empty());
                },
                Some(Err(e)) => {
                    proof {
                        lemma_drain_failure(auth, self@.pending, tail, e);
                    }
                    self.bep_auth_status = BepAuthStatus::PostHello;
                    return Err(e);
                },
                None => {},
            }
            processed_bytes += taken;
        }
        assert(self@.pending + buf@.skip(buf@.len() as int) =~= self@.pending);
        reveal(drain);
        assert(crate::views(res@) + Seq::empty() =~= crate::views(res@));
        Ok(res)
    }

    /// The message that is coming in, if it has come whole.
    fn completed(&self) -> (r: Option<Result<CompleteMessage, ParseError>>)
        requires
            self.incoming_message matches Some(im) ==> im.wf() && im.auth_status
                == self.bep_auth_status && !bad_header(im.auth_status, im.data@),
        ensures
            match r {
                Some(outcome) => {
                    &&& frame_len(self@.auth, self@.pending) == Some(self@.pending.len())
                    &&& match outcome {
                        Ok(c) => message_of(self@.auth, self@.pending) == Ok::<
                            CompleteMessageView,
                            ParseError,
                        >(c@),
                        Err(e) => message_of(self@.auth, self@.pending) == Err::<
                            CompleteMessageView,
                            ParseError,
                        >(e),
                    }
                },
                None => !is_complete(self@.auth, self@.pending),
            },
    {
        match &self.incoming_message {
            Some(im) => match im.status() {
                IncomingMessageStatus::Complete => Some(im.to_complete_message()),
                IncomingMessageStatus::Incomplete => None,
            },
            None => None,
        }
    }

    fn populate_hello(&mut self, buf: &[u8]) -> (r: Result<usize, ParseError>)
        requires
            old(self).wf(),
            old(self)@.auth == BepAuthStatus::PreHello,
            buf@.len() > 0,
        ensures
            final(self).populated(*old(self), buf@, r),
    {
        let mut processed_bytes: usize = 0;
        if let Some(mut im) = self.incoming_message.take() {
            if im.total_byte_len() < HELLO_START {
                let missing: usize = HELLO_START - im.total_byte_len();
                let available_for_hello: usize = min_len(buf, missing as u64);
                im.add_data(slice_subrange(buf, 0, available_for_hello))?;
                processed_bytes += available_for_hello;
            } else {
                let missing: u64 = match im.missing_message_bytes() {
                    Some(n) => n,
                    None => 0,
                };
                let ghost before = im.data@;
                if missing > 0 {
                    let available_for_hello: usize = min_len(buf, missing);
                    im.add_data(slice_subrange(buf, 0, available_for_hello))?;
                    processed_bytes += available_for_hello;
                }
                assert(im.data@ =~= before + buf@.take(processed_bytes as int));
            }
            self.incoming_message = Some(im);
        } else {
            let available_for_hello: usize = min_len(buf, HELLO_START as u64);
            let mut im = IncomingMessage::new(self.bep_auth_status);
            im.add_data(slice_subrange(buf, 0, available_for_hello))?;
            self.incoming_message = Some(im);
            processed_bytes += available_for_hello;
        }
        Ok(processed_bytes)
    }

    fn populate_header(&mut self, buf: &[u8]) -> (r: Result<usize, ParseError>)
        requires
            old(self).wf(),
            old(self)@.auth == BepAuthStatus::PostHello,
            old(self).header_missing(),
            buf@.len() > 0,
        ensures
            final(self).populated(*old(self), buf@, r),
    {
        let mut im = match self.incoming_message.take() {
            Some(im) => im,
            None => IncomingMessage::new(self.bep_auth_status),
        };
        let missing: usize = match im.missing_header_bytes() {
            Some(n) => n,
            None => HEADER_START - im.total_byte_len(),
        };
        let available_for_header: usize = min_len(buf, missing as u64);
        let added = im.add_data(slice_subrange(buf, 0, available_for_header));
        self.incoming_message = Some(im);
        added?;
        Ok(available_for_header)
    }

    fn populate_message(&mut self, buf: &[u8]) -> (r: Result<usize, ParseError>)
        requires
            old(self).wf(),
            old(self)@.auth == BepAuthStatus::PostHello,
            !old(self).header_missing(),
            buf@.len() > 0,
        ensures
            final(self).populated(*old(self), buf@, r),
    {
        match self.incoming_message.take() {
            Some(mut im) => {
                let missing: u64 = match im.missing_message_bytes() {
                    Some(n) => n,
                    None => im.message_start_pos() as u64 - im.total_byte_len() as u64,
                };
                let available_bytes: usize = min_len(buf, missing);
                proof {
                    lemma_prefix(im.auth_status, im.data@, buf@.take(available_bytes as int));
                }
                let added = im.add_data(slice_subrange(buf, 0, available_bytes));
                self.incoming_message = Some(im);
                added?;
                Ok(available_bytes)
            },
            None => Ok(0),
        }
    }

    closed spec fn header_missing(&self) -> bool {
        match self.incoming_message {
            Some(im) => im.header is None,
            None => true,
        }
    }

    /// The parser has taken in the first bytes of `buf`, as many as `r` says.
    closed spec fn populated(&self, before: Self, buf: Seq<u8>, r: Result<usize, ParseError>) -> bool {
        &&& self.incoming_message matches Some(im)
        &&& im.wf()
        &&& im.auth_status == before.bep_auth_status
        &&& self.bep_auth_status == before.bep_auth_status
        &&& match r {
            Ok(n) => {
                &&& n <= buf.len()
                &&& self@.pending == before@.pending + buf.take(n as int)
                &&& !bad_header(im.auth_status, im.data@)
                &&& n == 0 ==> is_complete(im.auth_status, im.data@)
            },
            Err(e) => {
                let n = self@.pending.len() - before@.pending.len();
                &&& e == ParseError::BadHeader
                &&& 0 <= n <= buf.len()
                &&& self@.pending == before@.pending + buf.take(n)
                &&& bad_header(im.auth_status, im.data@)
                &&& im.data@.len() == header_end(im.data@)
            },
        }
    }
}

fn min_len(buf: &[u8], n: u64) -> (r: usize)
    ensures
        r <= buf@.len(),
        r <= n,
        r == buf@.len() || r == n,
{
    if (buf.len() as u64) < n {
        buf.len()
    } else {
        n as usize
    }
}

/// Bytes can move from the end of one sequence to the start of the next.
proof fn lemma_split(a: Seq<u8>, b: Seq<u8>, k: int)
    requires
        0 <= k <= b.len(),
    ensures
        a + b == (a + b.take(k)) + b.skip(k),
{
    assert(a + b =~= (a + b.take(k)) + b.skip(k));
}

} // verus!
