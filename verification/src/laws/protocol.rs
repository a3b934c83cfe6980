//! The numbers that the fields of messages have in the protocol.

use vstd::prelude::*;
use vstd::utf8::{encode_utf8, valid_utf8};
use crate::bep_data_parser;
use crate::bep_data_parser::{BepAuthStatus, CompleteMessageView, ParseError};
use crate::config::Config;
use crate::config_text::ConfigView;
use crate::framing;
use crate::syncthing::{
    BlockInfo, BlockInfoView, Close, CloseView, ClusterConfig, ClusterConfigView, Counter,
    CounterView, Device, DeviceView, DownloadProgress, DownloadProgressView, ErrorCode,
    FileDownloadProgressUpdate, FileDownloadProgressUpdateView, FileInfo, FileInfoView, Folder,
    FolderView, Header, HeaderView, Hello, HelloView, Index, IndexUpdate, IndexUpdateView,
    IndexView, MessageCompression, MessageType, Ping, Request, RequestView, Response,
    ResponseView, Vector, VectorView,
};
use crate::wire;
use crate::wire::{FieldView, Message, WireView};

verus! {

broadcast proof fn lemma_in_either(a: Seq<FieldView>, b: Seq<FieldView>, f: FieldView)
    ensures
        #[trigger] (a + b).contains(f) <==> a.contains(f) || b.contains(f),
{
    if a.contains(f) {
        let i = choose|i: int| 0 <= i < a.len() && a[i] == f;
        assert((a + b)[i] == f);
    }
    if b.contains(f) {
        let i = choose|i: int| 0 <= i < b.len() && b[i] == f;
        assert((a + b)[a.len() + i] == f);
    }
}

broadcast proof fn lemma_in_text(tag: u32, x: Seq<char>, f: FieldView)
    ensures
        #[trigger] wire::text_field(tag, x).contains(f) <==> x.len() > 0 && f == text_at(tag, x),
{
    let s = wire::text_field(tag, x);
    if x.len() > 0 {
        assert(s[0] == text_at(tag, x));
    }
}

broadcast proof fn lemma_in_bytes(tag: u32, x: Seq<u8>, f: FieldView)
    ensures
        #[trigger] wire::bytes_field(tag, x).contains(f) <==> x.len() > 0 && f == bytes_at(tag, x),
{
    let s = wire::bytes_field(tag, x);
    if x.len() > 0 {
        assert(s[0] == bytes_at(tag, x));
    }
}

broadcast proof fn lemma_in_number(tag: u32, x: u64, f: FieldView)
    ensures
        #[trigger] wire::number_field(tag, x).contains(f) <==> x != 0 && f == number_at(tag, x),
{
    let s = wire::number_field(tag, x);
    if x != 0 {
        assert(s[0] == number_at(tag, x));
    }
}

proof fn lemma_in_optional_number(tag: u32, x: Option<u64>, f: FieldView)
    ensures
        wire::optional_number_field(tag, x).contains(f) <==> x is Some && f == number_at(
            tag,
            x->0,
        ),
{
    let s = wire::optional_number_field(tag, x);
    if x is Some {
        assert(s[0] == number_at(tag, x->0));
    }
}

broadcast proof fn lemma_in_texts(tag: u32, xs: Seq<Seq<char>>, f: FieldView)
    ensures
        #[trigger] wire::text_fields(tag, xs).contains(f) <==> exists|j: int|
            0 <= j < xs.len() && f == text_at(tag, #[trigger] xs[j]),
{
    let s = wire::text_fields(tag, xs);
    if exists|j: int| 0 <= j < xs.len() && f == text_at(tag, #[trigger] xs[j]) {
        let j = choose|j: int| 0 <= j < xs.len() && f == text_at(tag, #[trigger] xs[j]);
        assert(s[j] == f);
    }
    if s.contains(f) {
        let j = choose|j: int| 0 <= j < s.len() && s[j] == f;
        assert(f == text_at(tag, xs[j]));
    }
}

broadcast proof fn lemma_in_numbers(tag: u32, xs: Seq<i32>, f: FieldView)
    ensures
        #[trigger] wire::number_fields(tag, xs).contains(f) <==> exists|j: int|
            0 <= j < xs.len() && f == number_at(tag, (#[trigger] xs[j]) as u64),
{
    let s = wire::number_fields(tag, xs);
    if exists|j: int| 0 <= j < xs.len() && f == number_at(tag, (#[trigger] xs[j]) as u64) {
        let j = choose|j: int|
            0 <= j < xs.len() && f == number_at(tag, (#[trigger] xs[j]) as u64);
        assert(s[j] == f);
    }
    if s.contains(f) {
        let j = choose|j: int| 0 <= j < s.len() && s[j] == f;
        assert(f == number_at(tag, xs[j] as u64));
    }
}

broadcast proof fn lemma_in_messages<M: Message>(tag: u32, xs: Seq<M::V>, f: FieldView)
    ensures
        #[trigger] wire::message_fields::<M>(tag, xs).contains(f) <==> exists|j: int|
            0 <= j < xs.len() && f == message_at::<M>(tag, #[trigger] xs[j]),
{
    let s = wire::message_fields::<M>(tag, xs);
    if exists|j: int| 0 <= j < xs.len() && f == message_at::<M>(tag, #[trigger] xs[j]) {
        let j = choose|j: int| 0 <= j < xs.len() && f == message_at::<M>(tag, #[trigger] xs[j]);
        assert(s[j] == f);
    }
    if s.contains(f) {
        let j = choose|j: int| 0 <= j < s.len() && s[j] == f;
        assert(f == message_at::<M>(tag, xs[j]));
    }
}

broadcast proof fn lemma_in_message<M: Message>(tag: u32, x: Option<M::V>, f: FieldView)
    ensures
        #[trigger] wire::message_field::<M>(tag, x).contains(f) <==> x is Some && f == message_at::<
            M,
        >(tag, x->0),
{
    let s = wire::message_field::<M>(tag, x);
    if x is Some {
        assert(s[0] == message_at::<M>(tag, x->0));
    }
}

broadcast group group_in {
    lemma_in_either,
    lemma_in_text,
    lemma_in_bytes,
    lemma_in_number,
    lemma_in_texts,
    lemma_in_numbers,
    lemma_in_messages,
    lemma_in_message,
}

/// A field that holds a text.
pub open spec fn text_at(tag: u32, x: Seq<char>) -> FieldView {
    FieldView { tag, value: WireView::Bytes(encode_utf8(x)) }
}

/// A field that holds bytes.
pub open spec fn bytes_at(tag: u32, x: Seq<u8>) -> FieldView {
    FieldView { tag, value: WireView::Bytes(x) }
}

/// A field that holds a number.
pub open spec fn number_at(tag: u32, x: u64) -> FieldView {
    FieldView { tag, value: WireView::Varint(x) }
}

/// A field that holds a message.
pub open spec fn message_at<M: Message>(tag: u32, x: M::V) -> FieldView {
    FieldView { tag, value: WireView::Bytes(wire::encoded::<M>(x)) }
}

/// What the fields of a `Hello` with these numbers hold when it is read; fields with other
/// numbers are passed over.
pub proof fn law_hello_read(
    v: HelloView,
    text: Seq<char>,
    tag: u32,
    value: WireView,
    depth: nat,
)
    ensures
        Hello::merged(v, text_at(1, text), depth) == Some(
            HelloView { device_name: text, ..v },
        ),
        Hello::merged(v, text_at(2, text), depth) == Some(
            HelloView { client_name: text, ..v },
        ),
        Hello::merged(v, text_at(3, text), depth) == Some(
            HelloView { client_version: text, ..v },
        ),
        tag != 1 && tag != 2 && tag != 3 ==> Hello::merged(
            v,
            FieldView { tag, value },
            depth,
        ) == Some(v),
{
    wire::lemma_text_back(text);
}

/// The fields that a `Hello` is sent as are these, with these numbers, and no others.
pub proof fn law_hello_sent(v: HelloView, f: FieldView)
    ensures
        Hello::sent(v).contains(f) <==> {
            ||| v.device_name.len() > 0 && f == text_at(1, v.device_name)
            ||| v.client_name.len() > 0 && f == text_at(2, v.client_name)
            ||| v.client_version.len() > 0 && f == text_at(3, v.client_version)
        },
{
    broadcast use group_in;

}

/// What the fields of a `Header` with these numbers hold when it is read; fields with other
/// numbers are passed over.
pub proof fn law_header_read(
    v: HeaderView,
    number: u64,
    tag: u32,
    value: WireView,
    depth: nat,
)
    ensures
        Header::merged(v, number_at(1, number), depth) == Some(
            HeaderView { message_type: number as i32, ..v },
        ),
        Header::merged(v, number_at(2, number), depth) == Some(
            HeaderView { compression: number as i32, ..v },
        ),
        tag != 1 && tag != 2 ==> Header::merged(
            v,
            FieldView { tag, value },
            depth,
        ) == Some(v),
{
}

/// The fields that a `Header` is sent as are these, with these numbers, and no others.
pub proof fn law_header_sent(v: HeaderView, f: FieldView)
    ensures
        Header::sent(v).contains(f) <==> {
            ||| v.message_type != 0 && f == number_at(1, v.message_type as u64)
            ||| v.compression != 0 && f == number_at(2, v.compression as u64)
        },
{
    broadcast use group_in;

    wire::lemma_number_back(v.message_type, 0, 0);
    wire::lemma_number_back(v.compression, 0, 0);
}

/// What the fields of a `Close` with these numbers hold when it is read; fields with other
/// numbers are passed over.
pub proof fn law_close_read(
    v: CloseView,
    text: Seq<char>,
    tag: u32,
    value: WireView,
    depth: nat,
)
    ensures
        Close::merged(v, text_at(1, text), depth) == Some(
            CloseView { reason: text, ..v },
        ),
        tag != 1 ==> Close::merged(
            v,
            FieldView { tag, value },
            depth,
        ) == Some(v),
{
    wire::lemma_text_back(text);
}

/// The fields that a `Close` is sent as are these, with these numbers, and no others.
pub proof fn law_close_sent(v: CloseView, f: FieldView)
    ensures
        Close::sent(v).contains(f) <==> {
            ||| v.reason.len() > 0 && f == text_at(1, v.reason)
        },
{
    broadcast use group_in;

}

/// What the fields of a `Device` with these numbers hold when it is read; fields with other
/// numbers are passed over.
pub proof fn law_device_read(
    v: DeviceView,
    text: Seq<char>,
    bytes: Seq<u8>,
    number: u64,
    tag: u32,
    value: WireView,
    depth: nat,
)
    ensures
        Device::merged(v, bytes_at(1, bytes), depth) == Some(
            DeviceView { id: bytes, ..v },
        ),
        Device::merged(v, text_at(2, text), depth) == Some(
            DeviceView { name: text, ..v },
        ),
        Device::merged(v, text_at(3, text), depth) == Some(
            DeviceView { addresses: v.addresses.push(text), ..v },
        ),
        Device::merged(v, number_at(4, number), depth) == Some(
            DeviceView { compression: number as i32, ..v },
        ),
        Device::merged(v, text_at(5, text), depth) == Some(
            DeviceView { cert_name: text, ..v },
        ),
        Device::merged(v, number_at(6, number), depth) == Some(
            DeviceView { max_sequence: number as i64, ..v },
        ),
        Device::merged(v, number_at(7, number), depth) == Some(
            DeviceView { introducer: number != 0, ..v },
        ),
        Device::merged(v, number_at(8, number), depth) == Some(
            DeviceView { index_id: number, ..v },
        ),
        Device::merged(v, number_at(9, number), depth) == Some(
            DeviceView { skip_introduction_removals: number != 0, ..v },
        ),
        Device::merged(v, bytes_at(10, bytes), depth) == Some(
            DeviceView { encryption_password_token: bytes, ..v },
        ),
        tag != 1 && tag != 2 && tag != 3 && tag != 4 && tag != 5 && tag != 6 && tag != 7 && tag != 8 && tag != 9 && tag != 10 ==> Device::merged(
            v,
            FieldView { tag, value },
            depth,
        ) == Some(v),
{
    wire::lemma_text_back(text);
}

/// The fields that a `Device` is sent as are these, with these numbers, and no others.
pub proof fn law_device_sent(v: DeviceView, f: FieldView)
    ensures
        Device::sent(v).contains(f) <==> {
            ||| v.id.len() > 0 && f == bytes_at(1, v.id)
            ||| v.name.len() > 0 && f == text_at(2, v.name)
            ||| exists|j: int| 0 <= j < v.addresses.len() && f == text_at(3, #[trigger] v.addresses[j])
            ||| v.compression != 0 && f == number_at(4, v.compression as u64)
            ||| v.cert_name.len() > 0 && f == text_at(5, v.cert_name)
            ||| v.max_sequence != 0 && f == number_at(6, v.max_sequence as u64)
            ||| v.introducer && f == number_at(7, 1)
            ||| v.index_id != 0 && f == number_at(8, v.index_id)
            ||| v.skip_introduction_removals && f == number_at(9, 1)
            ||| v.encryption_password_token.len() > 0 && f == bytes_at(10, v.encryption_password_token)
        },
{
    let s1 = wire::bytes_field(1, v.id);
    lemma_in_bytes(1, v.id, f);
    let p1 = s1;
    let s2 = wire::text_field(2, v.name);
    lemma_in_text(2, v.name, f);
    let p2 = p1 + s2;
    lemma_in_either(p1, s2, f);
    let s3 = wire::text_fields(3, v.addresses);
    lemma_in_texts(3, v.addresses, f);
    let p3 = p2 + s3;
    lemma_in_either(p2, s3, f);
    let s4 = wire::number_field(4, v.compression as u64);
    lemma_in_number(4, v.compression as u64, f);
    let p4 = p3 + s4;
    lemma_in_either(p3, s4, f);
    let s5 = wire::text_field(5, v.cert_name);
    lemma_in_text(5, v.cert_name, f);
    let p5 = p4 + s5;
    lemma_in_either(p4, s5, f);
    let s6 = wire::number_field(6, v.max_sequence as u64);
    lemma_in_number(6, v.max_sequence as u64, f);
    let p6 = p5 + s6;
    lemma_in_either(p5, s6, f);
    let s7 = wire::number_field(7, wire::flag(v.introducer));
    lemma_in_number(7, wire::flag(v.introducer), f);
    let p7 = p6 + s7;
    lemma_in_either(p6, s7, f);
    let s8 = wire::number_field(8, v.index_id);
    lemma_in_number(8, v.index_id, f);
    let p8 = p7 + s8;
    lemma_in_either(p7, s8, f);
    let s9 = wire::number_field(9, wire::flag(v.skip_introduction_removals));
    lemma_in_number(9, wire::flag(v.skip_introduction_removals), f);
    let p9 = p8 + s9;
    lemma_in_either(p8, s9, f);
    let s10 = wire::bytes_field(10, v.encryption_password_token);
    lemma_in_bytes(10, v.encryption_password_token, f);
    let p10 = p9 + s10;
    lemma_in_either(p9, s10, f);
    wire::lemma_number_back(v.compression, 0, 0);
    wire::lemma_number_back(0, v.max_sequence, 0);
}

/// What the fields of a `Folder` with these numbers hold when it is read; fields with other
/// numbers are passed over.
pub proof fn law_folder_read(
    v: FolderView,
    text: Seq<char>,
    number: u64,
    device: DeviceView,
    tag: u32,
    value: WireView,
    depth: nat,
)
    requires
        depth >= 10,
        wire::encoded::<Device>(device).len() <= u64::MAX,
    ensures
        Folder::merged(v, text_at(1, text), depth) == Some(
            FolderView { id: text, ..v },
        ),
        Folder::merged(v, text_at(2, text), depth) == Some(
            FolderView { label: text, ..v },
        ),
        Folder::merged(v, number_at(3, number), depth) == Some(
            FolderView { read_only: number != 0, ..v },
        ),
        Folder::merged(v, number_at(4, number), depth) == Some(
            FolderView { ignore_permissions: number != 0, ..v },
        ),
        Folder::merged(v, number_at(5, number), depth) == Some(
            FolderView { ignore_delete: number != 0, ..v },
        ),
        Folder::merged(v, number_at(6, number), depth) == Some(
            FolderView { disable_temp_indexes: number != 0, ..v },
        ),
        Folder::merged(v, number_at(7, number), depth) == Some(
            FolderView { paused: number != 0, ..v },
        ),
        Folder::merged(v, message_at::<Device>(16, device), depth) == Some(
            FolderView { devices: v.devices.push(device), ..v },
        ),
        tag != 1 && tag != 2 && tag != 3 && tag != 4 && tag != 5 && tag != 6 && tag != 7 && tag != 16 ==> Folder::merged(
            v,
            FieldView { tag, value },
            depth,
        ) == Some(v),
{
    wire::lemma_text_back(text);
    wire::lemma_encoded_round_trip::<Device>(device, (depth - 1) as nat);
}

/// The fields that a `Folder` is sent as are these, with these numbers, and no others.
pub proof fn law_folder_sent(v: FolderView, f: FieldView)
    ensures
        Folder::sent(v).contains(f) <==> {
            ||| v.id.len() > 0 && f == text_at(1, v.id)
            ||| v.label.len() > 0 && f == text_at(2, v.label)
            ||| v.read_only && f == number_at(3, 1)
            ||| v.ignore_permissions && f == number_at(4, 1)
            ||| v.ignore_delete && f == number_at(5, 1)
            ||| v.disable_temp_indexes && f == number_at(6, 1)
            ||| v.paused && f == number_at(7, 1)
            ||| exists|j: int|
                0 <= j < v.devices.len() && f == message_at::<Device>(16, #[trigger] v.devices[j])
        },
{
    broadcast use group_in;

}

/// What the fields of a `ClusterConfig` with these numbers hold when it is read; fields with other
/// numbers are passed over.
pub proof fn law_cluster_config_read(
    v: ClusterConfigView,
    folder: FolderView,
    tag: u32,
    value: WireView,
    depth: nat,
)
    requires
        depth >= 10,
        wire::encoded::<Folder>(folder).len() <= u64::MAX,
    ensures
        ClusterConfig::merged(v, message_at::<Folder>(1, folder), depth) == Some(
            ClusterConfigView { folders: v.folders.push(folder), ..v },
        ),
        tag != 1 ==> ClusterConfig::merged(
            v,
            FieldView { tag, value },
            depth,
        ) == Some(v),
{
    wire::lemma_encoded_round_trip::<Folder>(folder, (depth - 1) as nat);
}

/// The fields that a `ClusterConfig` is sent as are these, with these numbers, and no others.
pub proof fn law_cluster_config_sent(v: ClusterConfigView, f: FieldView)
    ensures
        ClusterConfig::sent(v).contains(f) <==> {
            ||| exists|j: int|
                0 <= j < v.folders.len() && f == message_at::<Folder>(1, #[trigger] v.folders[j])
        },
{
    broadcast use group_in;

}

/// What the fields of a `Counter` with these numbers hold when it is read; fields with other
/// numbers are passed over.
pub proof fn law_counter_read(
    v: CounterView,
    number: u64,
    tag: u32,
    value: WireView,
    depth: nat,
)
    ensures
        Counter::merged(v, number_at(1, number), depth) == Some(
            CounterView { id: number, ..v },
        ),
        Counter::merged(v, number_at(2, number), depth) == Some(
            CounterView { value: number, ..v },
        ),
        tag != 1 && tag != 2 ==> Counter::merged(
            v,
            FieldView { tag, value },
            depth,
        ) == Some(v),
{
}

/// The fields that a `Counter` is sent as are these, with these numbers, and no others.
pub proof fn law_counter_sent(v: CounterView, f: FieldView)
    ensures
        Counter::sent(v).contains(f) <==> {
            ||| v.id != 0 && f == number_at(1, v.id)
            ||| v.value != 0 && f == number_at(2, v.value)
        },
{
    broadcast use group_in;

}

/// What the fields of a `Vector` with these numbers hold when it is read; fields with other
/// numbers are passed over.
pub proof fn law_vector_read(
    v: VectorView,
    counter: CounterView,
    tag: u32,
    value: WireView,
    depth: nat,
)
    requires
        depth >= 10,
        wire::encoded::<Counter>(counter).len() <= u64::MAX,
    ensures
        Vector::merged(v, message_at::<Counter>(1, counter), depth) == Some(
            VectorView { counters: v.counters.push(counter), ..v },
        ),
        tag != 1 ==> Vector::merged(
            v,
            FieldView { tag, value },
            depth,
        ) == Some(v),
{
    wire::lemma_encoded_round_trip::<Counter>(counter, (depth - 1) as nat);
}

/// The fields that a `Vector` is sent as are these, with these numbers, and no others.
pub proof fn law_vector_sent(v: VectorView, f: FieldView)
    ensures
        Vector::sent(v).contains(f) <==> {
            ||| exists|j: int|
                0 <= j < v.counters.len() && f == message_at::<Counter>(1, #[trigger] v.counters[j])
        },
{
    broadcast use group_in;

}

/// What the fields of a `BlockInfo` with these numbers hold when it is read; fields with other
/// numbers are passed over.
pub proof fn law_block_info_read(
    v: BlockInfoView,
    bytes: Seq<u8>,
    number: u64,
    tag: u32,
    value: WireView,
    depth: nat,
)
    ensures
        BlockInfo::merged(v, number_at(1, number), depth) == Some(
            BlockInfoView { offset: number as i64, ..v },
        ),
        BlockInfo::merged(v, number_at(2, number), depth) == Some(
            BlockInfoView { size: number as i32, ..v },
        ),
        BlockInfo::merged(v, bytes_at(3, bytes), depth) == Some(
            BlockInfoView { hash: bytes, ..v },
        ),
        BlockInfo::merged(v, number_at(4, number), depth) == Some(
            BlockInfoView { weak_hash: number as u32, ..v },
        ),
        tag != 1 && tag != 2 && tag != 3 && tag != 4 ==> BlockInfo::merged(
            v,
            FieldView { tag, value },
            depth,
        ) == Some(v),
{
}

/// The fields that a `BlockInfo` is sent as are these, with these numbers, and no others.
pub proof fn law_block_info_sent(v: BlockInfoView, f: FieldView)
    ensures
        BlockInfo::sent(v).contains(f) <==> {
            ||| v.offset != 0 && f == number_at(1, v.offset as u64)
            ||| v.size != 0 && f == number_at(2, v.size as u64)
            ||| v.hash.len() > 0 && f == bytes_at(3, v.hash)
            ||| v.weak_hash != 0 && f == number_at(4, v.weak_hash as u64)
        },
{
    broadcast use group_in;

    wire::lemma_number_back(0, v.offset, 0);
    wire::lemma_number_back(v.size, 0, 0);
}

/// What the fields of a `FileInfo` with these numbers hold when it is read; fields with other
/// numbers are passed over.
pub proof fn law_file_info_read(
    v: FileInfoView,
    text: Seq<char>,
    number: u64,
    vector: VectorView,
    blockinfo: BlockInfoView,
    tag: u32,
    value: WireView,
    depth: nat,
)
    requires
        depth >= 10,
        wire::encoded::<Vector>(vector).len() <= u64::MAX,
        wire::encoded::<BlockInfo>(blockinfo).len() <= u64::MAX,
    ensures
        FileInfo::merged(v, text_at(1, text), depth) == Some(
            FileInfoView { name: text, ..v },
        ),
        FileInfo::merged(v, number_at(2, number), depth) == Some(
            FileInfoView { file_type: number as i32, ..v },
        ),
        FileInfo::merged(v, number_at(3, number), depth) == Some(
            FileInfoView { size: number as i64, ..v },
        ),
        FileInfo::merged(v, number_at(4, number), depth) == Some(
            FileInfoView { permissions: number as u32, ..v },
        ),
        FileInfo::merged(v, number_at(5, number), depth) == Some(
            FileInfoView { modified_s: number as i64, ..v },
        ),
        FileInfo::merged(v, number_at(6, number), depth) == Some(
            FileInfoView { deleted: number != 0, ..v },
        ),
        FileInfo::merged(v, number_at(7, number), depth) == Some(
            FileInfoView { invalid: number != 0, ..v },
        ),
        FileInfo::merged(v, number_at(8, number), depth) == Some(
            FileInfoView { no_permissions: number != 0, ..v },
        ),
        v.version is None ==> FileInfo::merged(v, message_at::<Vector>(9, vector), depth) == Some(
            FileInfoView { version: Some(vector), ..v },
        ),
        FileInfo::merged(v, number_at(10, number), depth) == Some(
            FileInfoView { sequence: number as i64, ..v },
        ),
        FileInfo::merged(v, number_at(11, number), depth) == Some(
            FileInfoView { modified_ns: number as i32, ..v },
        ),
        FileInfo::merged(v, number_at(12, number), depth) == Some(
            FileInfoView { modified_by: number, ..v },
        ),
        FileInfo::merged(v, number_at(13, number), depth) == Some(
            FileInfoView { block_size: number as i32, ..v },
        ),
        FileInfo::merged(v, message_at::<BlockInfo>(16, blockinfo), depth) == Some(
            FileInfoView { blocks: v.blocks.push(blockinfo), ..v },
        ),
        FileInfo::merged(v, text_at(17, text), depth) == Some(
            FileInfoView { symlink_target: text, ..v },
        ),
        tag != 1 && tag != 2 && tag != 3 && tag != 4 && tag != 5 && tag != 6 && tag != 7 && tag != 8 && tag != 9 && tag != 10 && tag != 11 && tag != 12 && tag != 13 && tag != 16 && tag != 17 ==> FileInfo::merged(
            v,
            FieldView { tag, value },
            depth,
        ) == Some(v),
{
    wire::lemma_text_back(text);
    wire::lemma_encoded_round_trip::<Vector>(vector, (depth - 1) as nat);
    wire::lemma_encoded_round_trip::<BlockInfo>(blockinfo, (depth - 1) as nat);
}

/// The fields that a `FileInfo` is sent as are these, with these numbers, and no others.
pub proof fn law_file_info_sent(v: FileInfoView, f: FieldView)
    ensures
        FileInfo::sent(v).contains(f) <==> {
            ||| v.name.len() > 0 && f == text_at(1, v.name)
            ||| v.file_type != 0 && f == number_at(2, v.file_type as u64)
            ||| v.size != 0 && f == number_at(3, v.size as u64)
            ||| v.permissions != 0 && f == number_at(4, v.permissions as u64)
            ||| v.modified_s != 0 && f == number_at(5, v.modified_s as u64)
            ||| v.deleted && f == number_at(6, 1)
            ||| v.invalid && f == number_at(7, 1)
            ||| v.no_permissions && f == number_at(8, 1)
            ||| v.version is Some && f == message_at::<Vector>(9, v.version->0)
            ||| v.sequence != 0 && f == number_at(10, v.sequence as u64)
            ||| v.modified_ns != 0 && f == number_at(11, v.modified_ns as u64)
            ||| v.modified_by != 0 && f == number_at(12, v.modified_by)
            ||| v.block_size != 0 && f == number_at(13, v.block_size as u64)
            ||| exists|j: int|
                0 <= j < v.blocks.len() && f == message_at::<BlockInfo>(16, #[trigger] v.blocks[j])
            ||| v.symlink_target.len() > 0 && f == text_at(17, v.symlink_target)
        },
{
    let s1 = wire::text_field(1, v.name);
    lemma_in_text(1, v.name, f);
    let p1 = s1;
    let s2 = wire::number_field(2, v.file_type as u64);
    lemma_in_number(2, v.file_type as u64, f);
    let p2 = p1 + s2;
    lemma_in_either(p1, s2, f);
    let s3 = wire::number_field(3, v.size as u64);
    lemma_in_number(3, v.size as u64, f);
    let p3 = p2 + s3;
    lemma_in_either(p2, s3, f);
    let s4 = wire::number_field(4, v.permissions as u64);
    lemma_in_number(4, v.permissions as u64, f);
    let p4 = p3 + s4;
    lemma_in_either(p3, s4, f);
    let s5 = wire::number_field(5, v.modified_s as u64);
    lemma_in_number(5, v.modified_s as u64, f);
    let p5 = p4 + s5;
    lemma_in_either(p4, s5, f);
    let s6 = wire::number_field(6, wire::flag(v.deleted));
    lemma_in_number(6, wire::flag(v.deleted), f);
    let p6 = p5 + s6;
    lemma_in_either(p5, s6, f);
    let s7 = wire::number_field(7, wire::flag(v.invalid));
    lemma_in_number(7, wire::flag(v.invalid), f);
    let p7 = p6 + s7;
    lemma_in_either(p6, s7, f);
    let s8 = wire::number_field(8, wire::flag(v.no_permissions));
    lemma_in_number(8, wire::flag(v.no_permissions), f);
    let p8 = p7 + s8;
    lemma_in_either(p7, s8, f);
    let s9 = wire::message_field::<Vector>(9, v.version);
    lemma_in_message::<Vector>(9, v.version, f);
    let p9 = p8 + s9;
    lemma_in_either(p8, s9, f);
    let s10 = wire::number_field(10, v.sequence as u64);
    lemma_in_number(10, v.sequence as u64, f);
    let p10 = p9 + s10;
    lemma_in_either(p9, s10, f);
    let s11 = wire::number_field(11, v.modified_ns as u64);
    lemma_in_number(11, v.modified_ns as u64, f);
    let p11 = p10 + s11;
    lemma_in_either(p10, s11, f);
    let s12 = wire::number_field(12, v.modified_by);
    lemma_in_number(12, v.modified_by, f);
    let p12 = p11 + s12;
    lemma_in_either(p11, s12, f);
    let s13 = wire::number_field(13, v.block_size as u64);
    lemma_in_number(13, v.block_size as u64, f);
    let p13 = p12 + s13;
    lemma_in_either(p12, s13, f);
    let s14 = wire::message_fields::<BlockInfo>(16, v.blocks);
    lemma_in_messages::<BlockInfo>(16, v.blocks, f);
    let p14 = p13 + s14;
    lemma_in_either(p13, s14, f);
    let s15 = wire::text_field(17, v.symlink_target);
    lemma_in_text(17, v.symlink_target, f);
    let p15 = p14 + s15;
    lemma_in_either(p14, s15, f);
    wire::lemma_number_back(v.file_type, 0, 0);
    wire::lemma_number_back(0, v.size, 0);
    wire::lemma_number_back(0, v.modified_s, 0);
    wire::lemma_number_back(0, v.sequence, 0);
    wire::lemma_number_back(v.modified_ns, 0, 0);
    wire::lemma_number_back(v.block_size, 0, 0);
}

/// What the fields of an `Index` with these numbers hold when it is read; fields with other
/// numbers are passed over.
pub proof fn law_index_read(
    v: IndexView,
    text: Seq<char>,
    fileinfo: FileInfoView,
    tag: u32,
    value: WireView,
    depth: nat,
)
    requires
        depth >= 10,
        wire::encoded::<FileInfo>(fileinfo).len() <= u64::MAX,
    ensures
        Index::merged(v, text_at(1, text), depth) == Some(
            IndexView { folder: text, ..v },
        ),
        Index::merged(v, message_at::<FileInfo>(2, fileinfo), depth) == Some(
            IndexView { files: v.files.push(fileinfo), ..v },
        ),
        tag != 1 && tag != 2 ==> Index::merged(
            v,
            FieldView { tag, value },
            depth,
        ) == Some(v),
{
    wire::lemma_text_back(text);
    wire::lemma_encoded_round_trip::<FileInfo>(fileinfo, (depth - 1) as nat);
}

/// The fields that an `Index` is sent as are these, with these numbers, and no others.
pub proof fn law_index_sent(v: IndexView, f: FieldView)
    ensures
        Index::sent(v).contains(f) <==> {
            ||| v.folder.len() > 0 && f == text_at(1, v.folder)
            ||| exists|j: int|
                0 <= j < v.files.len() && f == message_at::<FileInfo>(2, #[trigger] v.files[j])
        },
{
    broadcast use group_in;

}

/// What the fields of an `IndexUpdate` with these numbers hold when it is read; fields with other
/// numbers are passed over.
pub proof fn law_index_update_read(
    v: IndexUpdateView,
    text: Seq<char>,
    fileinfo: FileInfoView,
    tag: u32,
    value: WireView,
    depth: nat,
)
    requires
        depth >= 10,
        wire::encoded::<FileInfo>(fileinfo).len() <= u64::MAX,
    ensures
        IndexUpdate::merged(v, text_at(1, text), depth) == Some(
            IndexUpdateView { folder: text, ..v },
        ),
        IndexUpdate::merged(v, message_at::<FileInfo>(2, fileinfo), depth) == Some(
            IndexUpdateView { files: v.files.push(fileinfo), ..v },
        ),
        tag != 1 && tag != 2 ==> IndexUpdate::merged(
            v,
            FieldView { tag, value },
            depth,
        ) == Some(v),
{
    wire::lemma_text_back(text);
    wire::lemma_encoded_round_trip::<FileInfo>(fileinfo, (depth - 1) as nat);
}

/// The fields that an `IndexUpdate` is sent as are these, with these numbers, and no others.
pub proof fn law_index_update_sent(v: IndexUpdateView, f: FieldView)
    ensures
        IndexUpdate::sent(v).contains(f) <==> {
            ||| v.folder.len() > 0 && f == text_at(1, v.folder)
            ||| exists|j: int|
                0 <= j < v.files.len() && f == message_at::<FileInfo>(2, #[trigger] v.files[j])
        },
{
    broadcast use group_in;

}

/// What the fields of a `Request` with these numbers hold when it is read; fields with other
/// numbers are passed over.
pub proof fn law_request_read(
    v: RequestView,
    text: Seq<char>,
    bytes: Seq<u8>,
    number: u64,
    tag: u32,
    value: WireView,
    depth: nat,
)
    ensures
        Request::merged(v, number_at(1, number), depth) == Some(
            RequestView { id: number as i32, ..v },
        ),
        Request::merged(v, text_at(2, text), depth) == Some(
            RequestView { folder: text, ..v },
        ),
        Request::merged(v, text_at(3, text), depth) == Some(
            RequestView { name: text, ..v },
        ),
        Request::merged(v, number_at(4, number), depth) == Some(
            RequestView { offset: number as i64, ..v },
        ),
        Request::merged(v, number_at(5, number), depth) == Some(
            RequestView { size: number as i32, ..v },
        ),
        Request::merged(v, bytes_at(6, bytes), depth) == Some(
            RequestView { hash: bytes, ..v },
        ),
        Request::merged(v, number_at(7, number), depth) == Some(
            RequestView { from_temporary: number != 0, ..v },
        ),
        tag != 1 && tag != 2 && tag != 3 && tag != 4 && tag != 5 && tag != 6 && tag != 7 ==> Request::merged(
            v,
            FieldView { tag, value },
            depth,
        ) == Some(v),
{
    wire::lemma_text_back(text);
}

/// The fields that a `Request` is sent as are these, with these numbers, and no others.
pub proof fn law_request_sent(v: RequestView, f: FieldView)
    ensures
        Request::sent(v).contains(f) <==> {
            ||| v.id != 0 && f == number_at(1, v.id as u64)
            ||| v.folder.len() > 0 && f == text_at(2, v.folder)
            ||| v.name.len() > 0 && f == text_at(3, v.name)
            ||| v.offset != 0 && f == number_at(4, v.offset as u64)
            ||| v.size != 0 && f == number_at(5, v.size as u64)
            ||| v.hash.len() > 0 && f == bytes_at(6, v.hash)
            ||| v.from_temporary && f == number_at(7, 1)
        },
{
    broadcast use group_in;

    wire::lemma_number_back(v.id, 0, 0);
    wire::lemma_number_back(0, v.offset, 0);
    wire::lemma_number_back(v.size, 0, 0);
}

/// What the fields of a `Response` with these numbers hold when it is read; fields with other
/// numbers are passed over.
pub proof fn law_response_read(
    v: ResponseView,
    bytes: Seq<u8>,
    number: u64,
    tag: u32,
    value: WireView,
    depth: nat,
)
    ensures
        Response::merged(v, number_at(1, number), depth) == Some(
            ResponseView { id: number as i32, ..v },
        ),
        Response::merged(v, bytes_at(2, bytes), depth) == Some(
            ResponseView { data: bytes, ..v },
        ),
        Response::merged(v, number_at(3, number), depth) == Some(
            ResponseView { code: number as i32, ..v },
        ),
        tag != 1 && tag != 2 && tag != 3 ==> Response::merged(
            v,
            FieldView { tag, value },
            depth,
        ) == Some(v),
{
}

/// The fields that a `Response` is sent as are these, with these numbers, and no others.
pub proof fn law_response_sent(v: ResponseView, f: FieldView)
    ensures
        Response::sent(v).contains(f) <==> {
            ||| v.id != 0 && f == number_at(1, v.id as u64)
            ||| v.data.len() > 0 && f == bytes_at(2, v.data)
            ||| v.code != 0 && f == number_at(3, v.code as u64)
        },
{
    broadcast use group_in;

    wire::lemma_number_back(v.id, 0, 0);
    wire::lemma_number_back(v.code, 0, 0);
}

/// What the fields of a `FileDownloadProgressUpdate` with these numbers hold when it is read; fields with other
/// numbers are passed over.
pub proof fn law_file_download_progress_update_read(
    v: FileDownloadProgressUpdateView,
    text: Seq<char>,
    number: u64,
    vector: VectorView,
    tag: u32,
    value: WireView,
    depth: nat,
)
    requires
        depth >= 10,
        wire::encoded::<Vector>(vector).len() <= u64::MAX,
    ensures
        FileDownloadProgressUpdate::merged(v, number_at(1, number), depth) == Some(
            FileDownloadProgressUpdateView { update_type: number as i32, ..v },
        ),
        FileDownloadProgressUpdate::merged(v, text_at(2, text), depth) == Some(
            FileDownloadProgressUpdateView { name: text, ..v },
        ),
        v.version is None ==> FileDownloadProgressUpdate::merged(v, message_at::<Vector>(3, vector), depth) == Some(
            FileDownloadProgressUpdateView { version: Some(vector), ..v },
        ),
        FileDownloadProgressUpdate::merged(v, number_at(4, number), depth) == Some(
            FileDownloadProgressUpdateView { block_indexes: v.block_indexes.push(number as i32), ..v },
        ),
        tag != 1 && tag != 2 && tag != 3 && tag != 4 ==> FileDownloadProgressUpdate::merged(
            v,
            FieldView { tag, value },
            depth,
        ) == Some(v),
{
    wire::lemma_text_back(text);
    wire::lemma_encoded_round_trip::<Vector>(vector, (depth - 1) as nat);
    assert(wire::as_numbers(WireView::Varint(number))->0 =~= seq![number]);
    assert(v.block_indexes + wire::short_numbers(seq![number]) =~= v.block_indexes.push(number as i32));
}

/// The fields that a `FileDownloadProgressUpdate` is sent as are these, with these numbers, and no others.
pub proof fn law_file_download_progress_update_sent(v: FileDownloadProgressUpdateView, f: FieldView)
    ensures
        FileDownloadProgressUpdate::sent(v).contains(f) <==> {
            ||| v.update_type != 0 && f == number_at(1, v.update_type as u64)
            ||| v.name.len() > 0 && f == text_at(2, v.name)
            ||| v.version is Some && f == message_at::<Vector>(3, v.version->0)
            ||| exists|j: int| 0 <= j < v.block_indexes.len() && f == number_at(4, (#[trigger] v.block_indexes[j]) as u64)
        },
{
    broadcast use group_in;

    wire::lemma_number_back(v.update_type, 0, 0);
}

/// What the fields of a `DownloadProgress` with these numbers hold when it is read; fields with other
/// numbers are passed over.
pub proof fn law_download_progress_read(
    v: DownloadProgressView,
    text: Seq<char>,
    filedownloadprogressupdate: FileDownloadProgressUpdateView,
    tag: u32,
    value: WireView,
    depth: nat,
)
    requires
        depth >= 10,
        wire::encoded::<FileDownloadProgressUpdate>(filedownloadprogressupdate).len() <= u64::MAX,
    ensures
        DownloadProgress::merged(v, text_at(1, text), depth) == Some(
            DownloadProgressView { folder: text, ..v },
        ),
        DownloadProgress::merged(v, message_at::<FileDownloadProgressUpdate>(2, filedownloadprogressupdate), depth) == Some(
            DownloadProgressView { updates: v.updates.push(filedownloadprogressupdate), ..v },
        ),
        tag != 1 && tag != 2 ==> DownloadProgress::merged(
            v,
            FieldView { tag, value },
            depth,
        ) == Some(v),
{
    wire::lemma_text_back(text);
    wire::lemma_encoded_round_trip::<FileDownloadProgressUpdate>(filedownloadprogressupdate, (depth - 1) as nat);
}

/// The fields that a `DownloadProgress` is sent as are these, with these numbers, and no others.
pub proof fn law_download_progress_sent(v: DownloadProgressView, f: FieldView)
    ensures
        DownloadProgress::sent(v).contains(f) <==> {
            ||| v.folder.len() > 0 && f == text_at(1, v.folder)
            ||| exists|j: int|
                0 <= j < v.updates.len() && f == message_at::<FileDownloadProgressUpdate>(2, #[trigger] v.updates[j])
        },
{
    broadcast use group_in;

}

/// What the fields of a `Config` with these numbers hold when it is read; fields with other
/// numbers are passed over.
pub proof fn law_config_read(
    v: ConfigView,
    text: Seq<char>,
    number: u64,
    tag: u32,
    value: WireView,
    depth: nat,
)
    ensures
        Config::merged(v, text_at(1, text), depth) == Some(
            ConfigView { name: text, ..v },
        ),
        Config::merged(v, text_at(2, text), depth) == Some(
            ConfigView { address: text, ..v },
        ),
        Config::merged(v, text_at(3, text), depth) == Some(
            ConfigView { cert: text, ..v },
        ),
        Config::merged(v, text_at(4, text), depth) == Some(
            ConfigView { key: text, ..v },
        ),
        Config::merged(v, text_at(5, text), depth) == Some(
            ConfigView { base_dir: text, ..v },
        ),
        Config::merged(v, text_at(6, text), depth) == Some(
            ConfigView { db_url: text, ..v },
        ),
        Config::merged(v, text_at(7, text), depth) == Some(
            ConfigView { rclone_config: text, ..v },
        ),
        Config::merged(v, text_at(8, text), depth) == Some(
            ConfigView { remote_base_dir: text, ..v },
        ),
        Config::merged(v, text_at(9, text), depth) == Some(
            ConfigView { read_cache_dir: text, ..v },
        ),
        Config::merged(v, text_at(10, text), depth) == Some(
            ConfigView { read_cache_size: text, ..v },
        ),
        Config::merged(v, text_at(11, text), depth) == Some(
            ConfigView { mountpoint: text, ..v },
        ),
        Config::merged(v, text_at(12, text), depth) == Some(
            ConfigView { max_total_pending_requests_size: text, ..v },
        ),
        Config::merged(v, text_at(20, text), depth) == Some(
            ConfigView { trusted_peers: v.trusted_peers.push(text), ..v },
        ),
        Config::merged(v, number_at(21, number), depth) == Some(
            ConfigView { fuse_inmem: number != 0, ..v },
        ),
        Config::merged(v, number_at(22, number), depth) == Some(
            ConfigView { fuse_refresh_rate_ms: Some(number), ..v },
        ),
        Config::merged(v, number_at(23, number), depth) == Some(
            ConfigView { max_pending_requests: Some(number), ..v },
        ),
        Config::merged(v, number_at(24, number), depth) == Some(
            ConfigView { storage_strategy: number as i32, ..v },
        ),
        tag != 1 && tag != 2 && tag != 3 && tag != 4 && tag != 5 && tag != 6 && tag != 7 && tag != 8 && tag != 9 && tag != 10 && tag != 11 && tag != 12 && tag != 20 && tag != 21 && tag != 22 && tag != 23 && tag != 24 ==> Config::merged(
            v,
            FieldView { tag, value },
            depth,
        ) == Some(v),
{
    wire::lemma_text_back(text);
}

/// The fields that a `Config` is sent as are these, with these numbers, and no others.
pub proof fn law_config_sent(v: ConfigView, f: FieldView)
    ensures
        Config::sent(v).contains(f) <==> {
            ||| v.name.len() > 0 && f == text_at(1, v.name)
            ||| v.address.len() > 0 && f == text_at(2, v.address)
            ||| v.cert.len() > 0 && f == text_at(3, v.cert)
            ||| v.key.len() > 0 && f == text_at(4, v.key)
            ||| v.base_dir.len() > 0 && f == text_at(5, v.base_dir)
            ||| v.db_url.len() > 0 && f == text_at(6, v.db_url)
            ||| v.rclone_config.len() > 0 && f == text_at(7, v.rclone_config)
            ||| v.remote_base_dir.len() > 0 && f == text_at(8, v.remote_base_dir)
            ||| v.read_cache_dir.len() > 0 && f == text_at(9, v.read_cache_dir)
            ||| v.read_cache_size.len() > 0 && f == text_at(10, v.read_cache_size)
            ||| v.mountpoint.len() > 0 && f == text_at(11, v.mountpoint)
            ||| v.max_total_pending_requests_size.len() > 0 && f == text_at(12, v.max_total_pending_requests_size)
            ||| exists|j: int| 0 <= j < v.trusted_peers.len() && f == text_at(20, #[trigger] v.trusted_peers[j])
            ||| v.fuse_inmem && f == number_at(21, 1)
            ||| v.fuse_refresh_rate_ms is Some && f == number_at(22, v.fuse_refresh_rate_ms->0)
            ||| v.max_pending_requests is Some && f == number_at(23, v.max_pending_requests->0)
            ||| v.storage_strategy != 0 && f == number_at(24, v.storage_strategy as u64)
        },
{
    let s1 = wire::text_field(1, v.name);
    lemma_in_text(1, v.name, f);
    let p1 = s1;
    let s2 = wire::text_field(2, v.address);
    lemma_in_text(2, v.address, f);
    let p2 = p1 + s2;
    lemma_in_either(p1, s2, f);
    let s3 = wire::text_field(3, v.cert);
    lemma_in_text(3, v.cert, f);
    let p3 = p2 + s3;
    lemma_in_either(p2, s3, f);
    let s4 = wire::text_field(4, v.key);
    lemma_in_text(4, v.key, f);
    let p4 = p3 + s4;
    lemma_in_either(p3, s4, f);
    let s5 = wire::text_field(5, v.base_dir);
    lemma_in_text(5, v.base_dir, f);
    let p5 = p4 + s5;
    lemma_in_either(p4, s5, f);
    let s6 = wire::text_field(6, v.db_url);
    lemma_in_text(6, v.db_url, f);
    let p6 = p5 + s6;
    lemma_in_either(p5, s6, f);
    let s7 = wire::text_field(7, v.rclone_config);
    lemma_in_text(7, v.rclone_config, f);
    let p7 = p6 + s7;
    lemma_in_either(p6, s7, f);
    let s8 = wire::text_field(8, v.remote_base_dir);
    lemma_in_text(8, v.remote_base_dir, f);
    let p8 = p7 + s8;
    lemma_in_either(p7, s8, f);
    let s9 = wire::text_field(9, v.read_cache_dir);
    lemma_in_text(9, v.read_cache_dir, f);
    let p9 = p8 + s9;
    lemma_in_either(p8, s9, f);
    let s10 = wire::text_field(10, v.read_cache_size);
    lemma_in_text(10, v.read_cache_size, f);
    let p10 = p9 + s10;
    lemma_in_either(p9, s10, f);
    let s11 = wire::text_field(11, v.mountpoint);
    lemma_in_text(11, v.mountpoint, f);
    let p11 = p10 + s11;
    lemma_in_either(p10, s11, f);
    let s12 = wire::text_field(12, v.max_total_pending_requests_size);
    lemma_in_text(12, v.max_total_pending_requests_size, f);
    let p12 = p11 + s12;
    lemma_in_either(p11, s12, f);
    let s13 = wire::text_fields(20, v.trusted_peers);
    lemma_in_texts(20, v.trusted_peers, f);
    let p13 = p12 + s13;
    lemma_in_either(p12, s13, f);
    let s14 = wire::number_field(21, wire::flag(v.fuse_inmem));
    lemma_in_number(21, wire::flag(v.fuse_inmem), f);
    let p14 = p13 + s14;
    lemma_in_either(p13, s14, f);
    let s15 = wire::optional_number_field(22, v.fuse_refresh_rate_ms);
    lemma_in_optional_number(22, v.fuse_refresh_rate_ms, f);
    let p15 = p14 + s15;
    lemma_in_either(p14, s15, f);
    let s16 = wire::optional_number_field(23, v.max_pending_requests);
    lemma_in_optional_number(23, v.max_pending_requests, f);
    let p16 = p15 + s16;
    lemma_in_either(p15, s16, f);
    let s17 = wire::number_field(24, v.storage_strategy as u64);
    lemma_in_number(24, v.storage_strategy as u64, f);
    let p17 = p16 + s17;
    lemma_in_either(p16, s17, f);
    wire::lemma_number_back(v.storage_strategy, 0, 0);
}

// ---------------------------------------------------------------------------
// The numbers of messages and codes

/// The numbers that stand in a header for the types of messages and for the compression, and
/// those that stand in a response for why there is no data.
pub proof fn law_numbers_of_the_protocol()
    ensures
        MessageType::ClusterConfig.number() == 0,
        MessageType::Index.number() == 1,
        MessageType::IndexUpdate.number() == 2,
        MessageType::Request.number() == 3,
        MessageType::Response.number() == 4,
        MessageType::DownloadProgress.number() == 5,
        MessageType::Ping.number() == 6,
        MessageType::Close.number() == 7,
        MessageCompression::Uncompressed.number() == 0,
        MessageCompression::Lz4.number() == 1,
        ErrorCode::NoError.number() == 0,
        ErrorCode::Generic.number() == 1,
        ErrorCode::NoSuchFile.number() == 2,
        ErrorCode::InvalidFile.number() == 3,
{
}

/// A message is taken for what the number in its header says, and is read from the bytes that
/// came, or from what these were before they were compressed.
pub proof fn law_message_by_its_number(
    header: HeaderView,
    body: Seq<u8>,
    inflated: Option<Seq<u8>>,
)
    ensures
        ({
            let n = header.message_type;
            let compressed = header.compression == 1;
            let raw = if compressed {
                inflated->0
            } else {
                body
            };
            let r = bep_data_parser::message_of_body(header, body, inflated);
            if compressed && inflated is None {
                r == Err::<CompleteMessageView, ParseError>(ParseError::BadCompression)
            } else if n < 0 || n > 7 {
                r == Err::<CompleteMessageView, ParseError>(ParseError::UnknownType)
            } else {
                match r {
                    Ok(CompleteMessageView::ClusterConfig(m)) => n == 0 && Some(m)
                        == wire::decoded::<ClusterConfig>(raw),
                    Ok(CompleteMessageView::Index(m)) => n == 1 && Some(m) == wire::decoded::<
                        Index,
                    >(raw),
                    Ok(CompleteMessageView::IndexUpdate(m)) => n == 2 && Some(m)
                        == wire::decoded::<IndexUpdate>(raw),
                    Ok(CompleteMessageView::Request(m)) => n == 3 && Some(m) == wire::decoded::<
                        Request,
                    >(raw),
                    Ok(CompleteMessageView::Response(m)) => n == 4 && Some(m)
                        == wire::decoded::<Response>(raw),
                    Ok(CompleteMessageView::DownloadProgress(m)) => n == 5 && Some(m)
                        == wire::decoded::<DownloadProgress>(raw),
                    Ok(CompleteMessageView::Ping(m)) => n == 6 && Some(m) == wire::decoded::<
                        Ping,
                    >(raw),
                    Ok(CompleteMessageView::Close(m)) => n == 7 && Some(m) == wire::decoded::<
                        Close,
                    >(raw),
                    Ok(CompleteMessageView::Hello(_)) => false,
                    Err(e) => e == ParseError::BadMessage,
                }
            }
        }),
{
}

/// The bytes of a frame are where they should be: the magic number, the length in two bytes
/// and the hello; or else the length of the header in two bytes, the header, the length of the
/// message in four bytes, most significant byte first, and the message.
pub proof fn law_frames(header: HeaderView, raw: Seq<u8>)
    ensures
        raw.len() <= u16::MAX ==> {
            let s = framing::hello_frame(raw);
            &&& s.len() == 6 + raw.len()
            &&& s[0] == 0x2e && s[1] == 0xa7 && s[2] == 0xd9 && s[3] == 0x0b
            &&& s[4] * 256 + s[5] == raw.len()
            &&& s.skip(6) == raw
        },
        wire::encoded::<Header>(header).len() <= u16::MAX && raw.len() <= u32::MAX ==> {
            let s = framing::message_frame(header, raw);
            let h = wire::encoded::<Header>(header);
            let n = h.len() as int;
            &&& s.len() == 6 + h.len() + raw.len()
            &&& s[0] * 256 + s[1] == n
            &&& s.subrange(2, 2 + n) == h
            &&& s[2 + n] * 16777216 + s[3 + n] * 65536 + s[4 + n] * 256 + s[5 + n] == raw.len()
            &&& s.skip(6 + n) == raw
        },
{
    if raw.len() <= u16::MAX {
        let s = framing::hello_frame(raw);
        assert(s.skip(6) =~= raw);
        assert(s[4] == (raw.len() / 256) as u8 && s[5] == (raw.len() % 256) as u8);
    }
    let h = wire::encoded::<Header>(header);
    if h.len() <= u16::MAX && raw.len() <= u32::MAX {
        let s = framing::message_frame(header, raw);
        let n = h.len() as int;
        assert(s.skip(6 + n) =~= raw);
        assert(s.subrange(2, 2 + n) =~= h);
        let l = raw.len();
        assert(s[2 + n] == (l / 16777216) as u8);
        assert(s[3 + n] == (l / 65536 % 256) as u8);
        assert(s[4 + n] == (l / 256 % 256) as u8);
        assert(s[5 + n] == (l % 256) as u8);
        assert(l == l / 16777216 * 16777216 + l / 65536 % 256 * 65536 + l / 256 % 256 * 256 + l
            % 256);
    }
}

/// How a message is sent on an established connection, and that one before it is a hello.
pub proof fn law_sent_with_its_number(m: CompleteMessageView)
    ensures
        match m {
            CompleteMessageView::Hello(x) => framing::frame_of(m) == framing::hello_frame(
                wire::encoded::<Hello>(x),
            ),
            CompleteMessageView::ClusterConfig(x) => framing::frame_of(m)
                == framing::message_frame(plain(0), wire::encoded::<ClusterConfig>(x)),
            CompleteMessageView::Index(x) => framing::frame_of(m) == framing::message_frame(
                plain(1),
                wire::encoded::<Index>(x),
            ),
            CompleteMessageView::IndexUpdate(x) => framing::frame_of(m) == framing::message_frame(
                plain(2),
                wire::encoded::<IndexUpdate>(x),
            ),
            CompleteMessageView::Request(x) => framing::frame_of(m) == framing::message_frame(
                plain(3),
                wire::encoded::<Request>(x),
            ),
            CompleteMessageView::Response(x) => framing::frame_of(m) == framing::message_frame(
                plain(4),
                wire::encoded::<Response>(x),
            ),
            CompleteMessageView::DownloadProgress(x) => framing::frame_of(m)
                == framing::message_frame(plain(5), wire::encoded::<DownloadProgress>(x)),
            CompleteMessageView::Ping(x) => framing::frame_of(m) == framing::message_frame(
                plain(6),
                wire::encoded::<Ping>(x),
            ),
            CompleteMessageView::Close(x) => framing::frame_of(m) == framing::message_frame(
                plain(7),
                wire::encoded::<Close>(x),
            ),
        },
{
}

/// The header of a message that is not compressed.
pub open spec fn plain(message_type: i32) -> HeaderView {
    HeaderView { message_type, compression: 0 }
}

/// The first bytes of a field say its number and what kind of value follows: a number, or
/// so many bytes.
pub proof fn law_field_on_the_wire(tag: u32, x: u64, bytes: Seq<u8>)
    requires
        1 <= tag < 16,
        x < 128,
        bytes.len() < 128,
    ensures
        wire::field_bytes(number_at(tag, x)) == seq![(tag * 8) as u8, x as u8],
        wire::field_bytes(bytes_at(tag, bytes)) == seq![(tag * 8 + 2) as u8, bytes.len() as u8]
            + bytes,
{
    reveal_with_fuel(wire::varint_bytes, 2);
    assert(wire::field_bytes(number_at(tag, x)) =~= seq![(tag * 8) as u8, x as u8]);
    assert(wire::field_bytes(bytes_at(tag, bytes)) =~= seq![
        (tag * 8 + 2) as u8,
        bytes.len() as u8,
    ] + bytes);
}

/// A number on the wire takes seven bits of each byte, the lowest ones first; all bytes but the
/// last one have their highest bit set.
pub proof fn law_number_on_the_wire(v: nat)
    ensures
        ({
            let s = wire::varint_bytes(v);
            &&& s.len() > 0
            &&& s.last() < 128
            &&& forall|i: int| 0 <= i < s.len() - 1 ==> (#[trigger] s[i]) >= 128
            &&& v == seven_bits(s)
        }),
    decreases v,
{
    let s = wire::varint_bytes(v);
    if v >= 128 {
        law_number_on_the_wire(v / 128);
        let t = wire::varint_bytes(v / 128);
        assert(s.skip(1) =~= t);
        assert forall|i: int| 0 <= i < s.len() - 1 implies (#[trigger] s[i]) >= 128 by {
            if i > 0 {
                assert(s[i] == t[i - 1]);
            }
        }
        assert(s.last() == t.last());
        assert(s[0] as nat % 128 == v % 128);
        assert(v == v % 128 + 128 * (v / 128));
    } else {
        reveal_with_fuel(seven_bits, 2);
        assert(s.skip(1).len() == 0);
        assert(s[0] == v as u8);
    }
}

/// The number that the lower seven bits of the bytes make.
pub open spec fn seven_bits(s: Seq<u8>) -> nat
    decreases s.len(),
{
    if s.len() == 0 {
        0
    } else {
        (s[0] as nat % 128) + 128 * seven_bits(s.skip(1))
    }
}

/// A value of the wrong kind is no value of a field: a text, bytes and a message come as bytes,
/// and a text is one only if it is well formed; a number comes as a number. Numbers that are
/// repeated may come one by one, or all in one field.
pub proof fn law_kinds_of_values(bytes: Seq<u8>, number: u64)
    ensures
        wire::as_text(WireView::Varint(number)) is None,
        wire::as_bytes(WireView::Varint(number)) is None,
        wire::as_number(WireView::Bytes(bytes)) is None,
        wire::as_number(WireView::Varint(number)) == Some(number),
        wire::as_bytes(WireView::Bytes(bytes)) == Some(bytes),
        wire::as_text(WireView::Bytes(bytes)) is Some <==> valid_utf8(bytes),
        wire::as_text(WireView::SixtyFourBit) is None,
        wire::as_text(WireView::ThirtyTwoBit) is None,
        wire::as_text(WireView::Group) is None,
        wire::as_number(WireView::SixtyFourBit) is None,
        wire::as_number(WireView::ThirtyTwoBit) is None,
        wire::as_number(WireView::Group) is None,
        wire::as_numbers(WireView::Varint(number)) == Some(seq![number]),
        wire::as_numbers(WireView::SixtyFourBit) is None,
{
}

/// Numbers in one field follow one another.
pub proof fn law_packed_numbers(number: u64, rest: Seq<u8>)
    requires
        wire::varints_of(rest) is Some,
    ensures
        wire::varints_of(wire::varint_bytes(number as nat) + rest) == Some(
            seq![number] + wire::varints_of(rest)->0,
        ),
        wire::varints_of(Seq::empty()) == Some(Seq::<u64>::empty()),
{
    let b = wire::varint_bytes(number as nat);
    law_number_on_the_wire(number as nat);
    wire::lemma_varint_u64_round_trip(number, rest);
    assert((b + rest).skip(b.len() as int) =~= rest);
}

/// How far a value goes that is passed over: eight or four bytes, a number, or as many bytes
/// as its length says.
pub proof fn law_values_passed_over(tag: u32, s: Seq<u8>, depth: nat)
    requires
        depth > 0,
    ensures
        wire::skip_value(1, tag, s, depth) == if s.len() >= 8 {
            Some(8nat)
        } else {
            None
        },
        wire::skip_value(5, tag, s, depth) == if s.len() >= 4 {
            Some(4nat)
        } else {
            None
        },
        wire::skip_value(0, tag, s, depth) is Some <==> wire::varint_at(s) is Some,
        wire::skip_value(0, tag, s, depth) is Some ==> wire::skip_value(0, tag, s, depth)->0 == (
        wire::varint_at(s)->0).1,
        wire::varint_at(s) is Some && (wire::varint_at(s)->0).0 + (wire::varint_at(s)->0).1
            <= s.len() ==> wire::skip_value(2, tag, s, depth) == Some(
            ((wire::varint_at(s)->0).0 + (wire::varint_at(s)->0).1) as nat,
        ),
        wire::varint_at(s) is Some && (wire::varint_at(s)->0).0 + (wire::varint_at(s)->0).1
            > s.len() ==> wire::skip_value(2, tag, s, depth) is None,
        wire::skip_value(4, tag, s, depth) is None,
{
}

/// The fields of a message are taken one after the other.
pub proof fn law_fields_in_turn<M: Message>(
    v: M::V,
    a: Seq<FieldView>,
    b: Seq<FieldView>,
    depth: nat,
)
    ensures
        wire::merge_all::<M>(v, a + b, depth) == match wire::merge_all::<M>(v, a, depth) {
            None => None,
            Some(w) => wire::merge_all::<M>(w, b, depth),
        },
        wire::merge_all::<M>(v, Seq::empty(), depth) == Some(v),
    decreases a.len(),
{
    if a.len() == 0 {
        assert(a + b =~= b);
    } else {
        assert((a + b).skip(1) =~= a.skip(1) + b);
        assert((a + b)[0] == a[0]);
        if let Some(w) = M::merged(v, a[0], depth) {
            law_fields_in_turn::<M>(w, a.skip(1), b, depth);
        }
    }
}

/// A message that is compressed starts with its size before that, in four bytes, most
/// significant byte first; the block that was compressed follows.
pub proof fn law_compressed(size: Seq<u8>, block: Seq<u8>, short: Seq<u8>)
    requires
        size.len() == 4,
        short.len() < 4,
    ensures
        bep_data_parser::decompressed(size + block) == if bep_data_parser::lengths_fit(block, 0) {
            bep_data_parser::lz4_block(
                block,
                (size[0] * 16777216 + size[1] * 65536 + size[2] * 256 + size[3]) as u32,
            )
        } else {
            None
        },
        bep_data_parser::decompressed(short) is None,
{
    assert((size + block).skip(4) =~= block);
}

/// What has come is enough for a frame when it has as many bytes as its lengths say.
pub proof fn law_enough_for_a_frame(s: Seq<u8>)
    ensures
        bep_data_parser::is_complete(BepAuthStatus::PreHello, s) <==> s.len() >= 6 && s.len() >= 6
            + s[4] * 256 + s[5],
        bep_data_parser::is_complete(BepAuthStatus::PostHello, s) <==> {
            let n = s[0] * 256 + s[1];
            s.len() >= 2 && s.len() >= 6 + n && s.len() >= 6 + n + s[2 + n] * 16777216 + s[3 + n]
                * 65536 + s[4 + n] * 256 + s[5 + n]
        },
{
}

/// The first message must be a hello: where the magic number is not there, it is refused.
pub proof fn law_hello_first(s: Seq<u8>)
    requires
        s.len() >= 6,
    ensures
        ({
            let magic = s[0] == 0x2e && s[1] == 0xa7 && s[2] == 0xd9 && s[3] == 0x0b;
            let r = bep_data_parser::message_of(BepAuthStatus::PreHello, s);
            &&& !magic <==> r == Err::<CompleteMessageView, ParseError>(ParseError::NoMagicHello)
            &&& magic ==> match wire::decoded::<Hello>(s.skip(6)) {
                Some(h) => r == Ok::<CompleteMessageView, ParseError>(
                    CompleteMessageView::Hello(h),
                ),
                None => r == Err::<CompleteMessageView, ParseError>(ParseError::BadHello),
            }
        }),
{
    reveal(bep_data_parser::message_of);
    let m = bep_data_parser::MAGIC_NUMBER@;
    assert(m.len() == 4 && m[0] == 0x2e && m[1] == 0xa7 && m[2] == 0xd9 && m[3] == 0x0b);
    if s[0] == 0x2e && s[1] == 0xa7 && s[2] == 0xd9 && s[3] == 0x0b {
        assert(s.take(4) =~= m);
    } else if s.take(4) == m {
        assert(s.take(4)[0] == s[0] && s.take(4)[1] == s[1] && s.take(4)[2] == s[2] && s.take(4)[3]
            == s[3]);
    }
}

/// Messages are taken one after the other: after a hello no other hello is, and the bytes of
/// a message that is not all there are kept.
pub proof fn law_messages_in_turn(
    auth: BepAuthStatus,
    s: Seq<u8>,
    rest: Seq<u8>,
    m: CompleteMessageView,
)
    requires
        bep_data_parser::frame_len(auth, s) == Some(s.len()),
        bep_data_parser::message_of(auth, s) == Ok::<CompleteMessageView, ParseError>(m),
    ensures
        ({
            let first = bep_data_parser::drain(auth, s + rest);
            let later = bep_data_parser::drain(BepAuthStatus::PostHello, rest);
            &&& first.messages == seq![m] + later.messages
            &&& first.rest == later.rest
            &&& first.error == later.error
            &&& first.auth == later.auth
        }),
        !bep_data_parser::is_complete(auth, rest) && !bep_data_parser::bad_header(auth, rest) ==> {
            let d = bep_data_parser::drain(auth, rest);
            d.messages.len() == 0 && d.rest == rest && d.error is None && d.auth == auth
        },
{
    assert(!bep_data_parser::bad_header(auth, s)) by {
        reveal(bep_data_parser::message_of);
    }
    bep_data_parser::lemma_drain_message(auth, s, rest, m);
    reveal(bep_data_parser::drain);
}

/// A message is what stands behind its header and its length, and is read as the header says.
pub proof fn law_message_behind_its_header(s: Seq<u8>)
    requires
        s.len() >= 6,
        s.len() >= 6 + s[0] * 256 + s[1],
    ensures
        ({
            let n = s[0] * 256 + s[1];
            let body = s.skip(6 + n);
            let r = bep_data_parser::message_of(BepAuthStatus::PostHello, s);
            match wire::decoded::<Header>(s.subrange(2, 2 + n)) {
                None => r == Err::<CompleteMessageView, ParseError>(ParseError::BadHeader),
                Some(h) => r == bep_data_parser::message_of_body(
                    h,
                    body,
                    bep_data_parser::decompressed(body),
                ),
            }
        }),
{
    reveal(bep_data_parser::message_of);
}

} // verus!
