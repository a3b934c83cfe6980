//! The protobuf wire format: varints, keys, and the fields of one message.

use vstd::prelude::*;
use vstd::slice::slice_subrange;
use vstd::utf8::*;


verus! {

/// The input is not a well-formed encoding of the message.
#[derive(Debug, Clone, Copy, PartialEq, Eq, Structural)]
pub struct DecodeError;

/// How many levels of nesting a message may have.
pub const RECURSION_LIMIT: u32 = 100;

// ---------------------------------------------------------------------------
// Varints

/// The base-128 number that starts `s`, least significant digit first, every
/// byte but the last with its high bit set; and the number of bytes it takes.
pub open spec fn varint_run(s: Seq<u8>) -> Option<(nat, nat)>
    decreases s.len(),
{
    if s.len() == 0 {
        None
    } else if s[0] < 128 {
        Some((s[0] as nat, 1))
    } else {
        match varint_run(s.skip(1)) {
            None => None,
            Some((v, n)) => Some(((s[0] - 128) as nat + 128 * v, n + 1)),
        }
    }
}

/// The varint that starts `s`: a run of at most ten bytes whose value fits in
/// 64 bits.
pub open spec fn varint_at(s: Seq<u8>) -> Option<(u64, nat)> {
    match varint_run(s) {
        None => None,
        Some((v, n)) => if n <= 10 && v <= u64::MAX {
            Some((v as u64, n))
        } else {
            None
        },
    }
}

/// The shortest varint of `v`.
pub open spec fn varint_bytes(v: nat) -> Seq<u8>
    decreases v,
{
    if v < 128 {
        seq![v as u8]
    } else {
        seq![(v % 128 + 128) as u8] + varint_bytes(v / 128)
    }
}

/// Calls `prost::encoding::decode_varint`, which reads one varint off the front
/// of the slice and moves the slice past it, and fails on an empty slice, on a
/// run of more than ten bytes and on a value of more than 64 bits.
#[verifier::external_body]
fn decode_varint<'a>(buf: &'a [u8]) -> (r: Option<(u64, &'a [u8])>)
    ensures
        match varint_at(buf@) {
            None => r is None,
            Some((v, n)) => r matches Some((x, rest)) && x == v && rest@ == buf@.skip(n as int),
        },
{
    let mut rest = buf;
    match prost::encoding::decode_varint(&mut rest) {
        Ok(v) => Some((v, rest)),
        Err(_) => None,
    }
}

/// Calls `prost::encoding::encode_varint`, which appends the shortest varint of
/// the value to the buffer.
#[verifier::external_body]
fn encode_varint(value: u64, buf: &mut Vec<u8>)
    ensures
        final(buf)@ == old(buf)@ + varint_bytes(value as nat),
{
    prost::encoding::encode_varint(value, buf)
}

/// A varint that is there takes at least one byte and lies within `s`.
pub proof fn lemma_varint_run_len(s: Seq<u8>)
    ensures
        varint_run(s) matches Some((v, n)) ==> 1 <= n <= s.len(),
    decreases s.len(),
{
    if s.len() > 0 && s[0] >= 128 {
        lemma_varint_run_len(s.skip(1));
    }
}

/// A varint is read back whatever follows it.
pub proof fn lemma_varint_round_trip(v: nat, rest: Seq<u8>)
    ensures
        varint_run(varint_bytes(v) + rest) == Some((v, varint_bytes(v).len())),
        varint_bytes(v).len() >= 1,
    decreases v,
{
    let s = varint_bytes(v) + rest;
    if v >= 128 {
        lemma_varint_round_trip(v / 128, rest);
        assert(s.skip(1) =~= varint_bytes(v / 128) + rest);
    }
}

/// A varint of `k` base-128 digits takes at most `k` bytes.
proof fn lemma_varint_bytes_len(v: nat, k: nat)
    requires
        v < vstd::arithmetic::power::pow(128, k),
        k >= 1,
    ensures
        varint_bytes(v).len() <= k,
    decreases k,
{
    reveal(vstd::arithmetic::power::pow);
    if v >= 128 {
        if k == 1 {
            assert(vstd::arithmetic::power::pow(128, 0) == 1);
            assert(false);
        } else {
            let p = vstd::arithmetic::power::pow(128, (k - 1) as nat);
            assert(v < 128 * p);
            assert(v / 128 < p) by (nonlinear_arith)
                requires
                    v < 128 * p,
            ;
            lemma_varint_bytes_len(v / 128, (k - 1) as nat);
        }
    }
}

/// A 64-bit value is read back whatever follows it.
pub proof fn lemma_varint_u64_round_trip(v: u64, rest: Seq<u8>)
    ensures
        varint_at(varint_bytes(v as nat) + rest) == Some((v, varint_bytes(v as nat).len())),
        1 <= varint_bytes(v as nat).len() <= 10,
{
    lemma_varint_round_trip(v as nat, rest);
    assert(vstd::arithmetic::power::pow(128, 10) > u64::MAX) by {
        reveal_with_fuel(vstd::arithmetic::power::pow, 11);
    }
    lemma_varint_bytes_len(v as nat, 10);
}


// ---------------------------------------------------------------------------
// Fields

/// The number, the wire type and the length of the key that starts `s`.
pub open spec fn key_at(s: Seq<u8>) -> Option<(u32, u8, nat)> {
    match varint_at(s) {
        None => None,
        Some((v, n)) => if v <= u32::MAX && v % 8 <= 5 && v / 8 >= 1 {
            Some(((v / 8) as u32, (v % 8) as u8, n))
        } else {
            None
        },
    }
}

/// The length of the value of wire type `wire` that starts `s`, where `depth`
/// more levels of groups may be entered.
pub open spec fn skip_value(wire: u8, tag: u32, s: Seq<u8>, depth: nat) -> Option<nat>
    decreases s.len(), 1nat,
{
    if depth == 0 {
        None
    } else if wire == 0 {
        match varint_at(s) {
            None => None,
            Some((v, n)) => Some(n),
        }
    } else if wire == 1 {
        if s.len() < 8 {
            None
        } else {
            Some(8)
        }
    } else if wire == 2 {
        match varint_at(s) {
            None => None,
            Some((v, n)) => if n + v <= s.len() {
                Some(n + v as nat)
            } else {
                None
            },
        }
    } else if wire == 3 {
        skip_group(tag, s, depth)
    } else if wire == 5 {
        if s.len() < 4 {
            None
        } else {
            Some(4)
        }
    } else {
        None
    }
}

/// The length of the members of group `tag` at the start of `s`, with the key
/// that ends the group.
pub open spec fn skip_group(tag: u32, s: Seq<u8>, depth: nat) -> Option<nat>
    decreases s.len(), 0nat,
{
    proof {
        lemma_varint_run_len(s);
    }
    match key_at(s) {
        None => None,
        Some((t, wire, n)) => if wire == 4 {
            if t == tag {
                Some(n)
            } else {
                None
            }
        } else {
            match skip_value(wire, t, s.skip(n as int), (depth - 1) as nat) {
                None => None,
                Some(m) => if n + m <= s.len() {
                    match skip_group(tag, s.skip((n + m) as int), depth) {
                        None => None,
                        Some(k) => Some(n + m + k),
                    }
                } else {
                    None
                },
            }
        },
    }
}

/// What a field holds. The contents of the wire types that no message here uses
/// are passed over.
#[derive(Debug)]
pub enum WireValue {
    Varint(u64),
    SixtyFourBit,
    Bytes(Vec<u8>),
    Group,
    ThirtyTwoBit,
}

pub enum WireView {
    Varint(u64),
    SixtyFourBit,
    Bytes(Seq<u8>),
    Group,
    ThirtyTwoBit,
}

impl View for WireValue {
    type V = WireView;

    open spec fn view(&self) -> WireView {
        match self {
            WireValue::Varint(v) => WireView::Varint(*v),
            WireValue::SixtyFourBit => WireView::SixtyFourBit,
            WireValue::Bytes(b) => WireView::Bytes(b@),
            WireValue::Group => WireView::Group,
            WireValue::ThirtyTwoBit => WireView::ThirtyTwoBit,
        }
    }
}

/// One field of a message: its number and what it holds.
#[derive(Debug)]
pub struct Field {
    pub tag: u32,
    pub value: WireValue,
}

pub struct FieldView {
    pub tag: u32,
    pub value: WireView,
}

impl View for Field {
    type V = FieldView;

    open spec fn view(&self) -> FieldView {
        FieldView { tag: self.tag, value: self.value@ }
    }
}

/// The value of wire type `wire` that starts `s`, with its length.
pub open spec fn value_at(wire: u8, tag: u32, s: Seq<u8>, depth: nat) -> Option<(WireView, nat)> {
    match skip_value(wire, tag, s, depth) {
        None => None,
        Some(n) => Some(
            (
                if wire == 0 {
                    WireView::Varint((varint_at(s)->0).0)
                } else if wire == 1 {
                    WireView::SixtyFourBit
                } else if wire == 2 {
                    WireView::Bytes(s.subrange((varint_at(s)->0).1 as int, n as int))
                } else if wire == 3 {
                    WireView::Group
                } else {
                    WireView::ThirtyTwoBit
                },
                n,
            ),
        ),
    }
}

/// The fields that `s` is made of, in order; none where `s` is malformed.
pub open spec fn fields_of(s: Seq<u8>, depth: nat) -> Option<Seq<FieldView>>
    decreases s.len(),
{
    proof {
        lemma_varint_run_len(s);
        if let Some((tag, wire, n)) = key_at(s) {
            lemma_skip_len(wire, tag, s.skip(n as int), depth);
        }
    }
    if s.len() == 0 {
        Some(Seq::empty())
    } else {
        match key_at(s) {
            None => None,
            Some((tag, wire, n)) => match value_at(wire, tag, s.skip(n as int), depth) {
                None => None,
                Some((value, m)) => match fields_of(s.skip((n + m) as int), depth) {
                    None => None,
                    Some(rest) => Some(seq![FieldView { tag, value }] + rest),
                },
            },
        }
    }
}

/// A value that is there takes at least one byte and lies within `s`.
pub proof fn lemma_skip_len(wire: u8, tag: u32, s: Seq<u8>, depth: nat)
    ensures
        skip_value(wire, tag, s, depth) matches Some(n) ==> 1 <= n <= s.len(),
    decreases s.len(), 1nat,
{
    lemma_varint_run_len(s);
    if wire == 3 && depth > 0 {
        lemma_skip_group_len(tag, s, depth);
    }
}

proof fn lemma_skip_group_len(tag: u32, s: Seq<u8>, depth: nat)
    ensures
        skip_group(tag, s, depth) matches Some(n) ==> 1 <= n <= s.len(),
    decreases s.len(), 0nat,
{
    lemma_varint_run_len(s);
    if let Some((t, wire, n)) = key_at(s) {
        if wire != 4 {
            lemma_skip_len(wire, t, s.skip(n as int), (depth - 1) as nat);
            if let Some(m) = skip_value(wire, t, s.skip(n as int), (depth - 1) as nat) {
                lemma_skip_group_len(tag, s.skip((n + m) as int), depth);
            }
        }
    }
}

/// Reads the key that starts `buf` and returns what follows it.
fn read_key<'a>(buf: &'a [u8]) -> (r: Option<(u32, u8, &'a [u8])>)
    ensures
        match key_at(buf@) {
            None => r is None,
            Some((tag, wire, n)) => r matches Some((t, w, rest)) && t == tag && w == wire && rest@
                == buf@.skip(n as int),
        },
{
    match decode_varint(buf) {
        None => None,
        Some((v, rest)) => if v <= 0xffff_ffff && v % 8 <= 5 && v / 8 >= 1 {
            Some(((v / 8) as u32, (v % 8) as u8, rest))
        } else {
            None
        },
    }
}

/// Passes over the value of wire type `wire` that starts `buf`.
fn read_past<'a>(wire: u8, tag: u32, buf: &'a [u8], depth: u32) -> (r: Option<&'a [u8]>)
    ensures
        match skip_value(wire, tag, buf@, depth as nat) {
            None => r is None,
            Some(n) => r matches Some(rest) && rest@ == buf@.skip(n as int),
        },
    decreases depth, 0nat,
{
    if depth == 0 {
        None
    } else if wire == 0 {
        match decode_varint(buf) {
            None => None,
            Some((_v, rest)) => Some(rest),
        }
    } else if wire == 1 {
        if buf.len() < 8 {
            None
        } else {
            Some(slice_subrange(buf, 8, buf.len()))
        }
    } else if wire == 2 {
        proof {
            lemma_varint_run_len(buf@);
        }
        match decode_varint(buf) {
            None => None,
            Some((v, rest)) => if v <= rest.len() as u64 {
                let r = slice_subrange(rest, v as usize, rest.len());
                assert(r@ =~= buf@.skip(((varint_at(buf@)->0).1 + v) as int));
                Some(r)
            } else {
                None
            },
        }
    } else if wire == 3 {
        read_past_group(tag, buf, depth)
    } else if wire == 5 {
        if buf.len() < 4 {
            None
        } else {
            Some(slice_subrange(buf, 4, buf.len()))
        }
    } else {
        None
    }
}

fn read_past_group<'a>(tag: u32, buf: &'a [u8], depth: u32) -> (r: Option<&'a [u8]>)
    requires
        depth > 0,
    ensures
        match skip_group(tag, buf@, depth as nat) {
            None => r is None,
            Some(n) => r matches Some(rest) && rest@ == buf@.skip(n as int),
        },
    decreases depth - 1, 1nat,
{
    let mut cur: &'a [u8] = buf;
    let ghost mut done: nat = 0;
    assert(buf@.skip(0) =~= buf@);
    loop
        invariant
            depth > 0,
            done <= buf@.len(),
            cur@ == buf@.skip(done as int),
            match skip_group(tag, cur@, depth as nat) {
                None => skip_group(tag, buf@, depth as nat) is None,
                Some(k) => skip_group(tag, buf@, depth as nat) == Some(done + k),
            },
        decreases cur@.len(),
    {
        proof {
            lemma_varint_run_len(cur@);
        }
        let ghost s = cur@;
        match read_key(cur) {
            None => {
                return None;
            },
            Some((t, wire, rest)) => {
                let ghost n = (key_at(s)->0).2;
                if wire == 4 {
                    if t == tag {
                        assert(rest@ =~= buf@.skip((done + n) as int));
                        return Some(rest);
                    }
                    return None;
                }
                proof {
                    lemma_skip_len(wire, t, rest@, (depth - 1) as nat);
                }
                match read_past(wire, t, rest, depth - 1) {
                    None => {
                        return None;
                    },
                    Some(next) => {
                        let ghost m = skip_value(wire, t, rest@, (depth - 1) as nat)->0;
                        assert(next@ =~= s.skip((n + m) as int));
                        assert(next@ =~= buf@.skip((done + n + m) as int));
                        proof {
                            done = done + n + m;
                        }
                        cur = next;
                    },
                }
            },
        }
    }
}

/// Reads the value of wire type `wire` that starts `buf` and returns what
/// follows it.
fn read_value<'a>(wire: u8, tag: u32, buf: &'a [u8], depth: u32) -> (r: Option<
    (WireValue, &'a [u8]),
>)
    ensures
        match value_at(wire, tag, buf@, depth as nat) {
            None => r is None,
            Some((value, n)) => r matches Some((v, rest)) && v@ == value && rest@ == buf@.skip(
                n as int,
            ),
        },
{
    proof {
        lemma_varint_run_len(buf@);
    }
    match read_past(wire, tag, buf, depth) {
        None => None,
        Some(rest) => {
            let value = if wire == 0 {
                match decode_varint(buf) {
                    None => {
                        return None;
                    },
                    Some((v, _rest)) => WireValue::Varint(v),
                }
            } else if wire == 1 {
                WireValue::SixtyFourBit
            } else if wire == 2 {
                match decode_varint(buf) {
                    None => {
                        return None;
                    },
                    Some((v, body)) => {
                        assert(v <= buf.len());
                        let bytes = vstd::slice::slice_to_vec(slice_subrange(body, 0, v as usize));
                        assert(bytes@ =~= buf@.subrange(
                            (varint_at(buf@)->0).1 as int,
                            (varint_at(buf@)->0).1 + v,
                        ));
                        WireValue::Bytes(bytes)
                    },
                }
            } else if wire == 3 {
                WireValue::Group
            } else {
                WireValue::ThirtyTwoBit
            };
            Some((value, rest))
        },
    }
}

/// Splits an encoded message into its fields.
pub fn parse_fields(buf: &[u8], depth: u32) -> (r: Result<Vec<Field>, DecodeError>)
    ensures
        match fields_of(buf@, depth as nat) {
            None => r is Err,
            Some(fs) => r matches Ok(v) && crate::views(v@) == fs,
        },
{
    let mut cur: &[u8] = buf;
    let mut out: Vec<Field> = Vec::new();
    assert(crate::views(out@) =~= Seq::<FieldView>::empty());
    while cur.len() > 0
        invariant
            match fields_of(cur@, depth as nat) {
                None => fields_of(buf@, depth as nat) is None,
                Some(fs) => fields_of(buf@, depth as nat) == Some(crate::views(out@) + fs),
            },
        decreases cur@.len(),
    {
        proof {
            lemma_varint_run_len(cur@);
        }
        let ghost s = cur@;
        match read_key(cur) {
            None => {
                return Err(DecodeError);
            },
            Some((tag, wire, rest)) => {
                let ghost n = (key_at(s)->0).2;
                proof {
                    lemma_skip_len(wire, tag, rest@, depth as nat);
                }
                match read_value(wire, tag, rest, depth) {
                    None => {
                        return Err(DecodeError);
                    },
                    Some((value, next)) => {
                        let ghost m = (value_at(wire, tag, rest@, depth as nat)->0).1;
                        assert(next@ =~= s.skip((n + m) as int));
                        let field = Field { tag, value };
                        proof {
                            crate::lemma_views_push(out@, field);
                            if let Some(fs) = fields_of(next@, depth as nat) {
                                assert(crate::views(out@) + (seq![field@] + fs) =~= crate::views(out@).push(
                                    field@,
                                ) + fs);
                            }
                        }
                        out.push(field);
                        cur = next;
                    },
                }
            },
        }
    }
    assert(crate::views(out@) + Seq::<FieldView>::empty() =~= crate::views(out@));
    Ok(out)
}


/// The key and the value of a field as they are sent. Only varints and byte
/// strings are ever sent.
pub open spec fn field_bytes(f: FieldView) -> Seq<u8> {
    match f.value {
        WireView::Varint(v) => varint_bytes(f.tag as nat * 8) + varint_bytes(v as nat),
        WireView::Bytes(b) => varint_bytes(f.tag as nat * 8 + 2) + varint_bytes(b.len()) + b,
        _ => Seq::empty(),
    }
}

/// A field that can be sent: its number is within protobuf's range.
pub open spec fn sendable(f: FieldView) -> bool {
    &&& 1 <= f.tag < 0x2000_0000
    &&& f.value is Varint || f.value is Bytes
}

#[verifier::opaque]
pub open spec fn all_sendable(fs: Seq<FieldView>) -> bool {
    forall|i: int| 0 <= i < fs.len() ==> #[trigger] sendable(fs[i])
}

pub broadcast proof fn lemma_all_sendable_concat(a: Seq<FieldView>, b: Seq<FieldView>)
    requires
        all_sendable(a),
        all_sendable(b),
    ensures
        #[trigger] all_sendable(a + b),
{
    reveal(all_sendable);
}

pub open spec fn bytes_of(fs: Seq<FieldView>) -> Seq<u8>
    decreases fs.len(),
{
    if fs.len() == 0 {
        Seq::empty()
    } else {
        field_bytes(fs[0]) + bytes_of(fs.skip(1))
    }
}

/// The bytes of two lists of fields are those of the one, then those of the other.
pub proof fn lemma_bytes_of_concat(a: Seq<FieldView>, b: Seq<FieldView>)
    ensures
        bytes_of(a + b) == bytes_of(a) + bytes_of(b),
    decreases a.len(),
{
    if a.len() == 0 {
        assert(a + b =~= b);
        assert(bytes_of(a) + bytes_of(b) =~= bytes_of(b));
    } else {
        lemma_bytes_of_concat(a.skip(1), b);
        assert((a + b).skip(1) =~= a.skip(1) + b);
        assert(bytes_of(a + b) =~= bytes_of(a) + bytes_of(b));
    }
}

/// A field that was sent is the first that is read, whatever follows it.
proof fn lemma_field_round_trip(f: FieldView, after: Seq<u8>, depth: nat)
    requires
        depth > 0,
        sendable(f),
        field_bytes(f).len() <= u64::MAX,
    ensures
        match key_at(field_bytes(f) + after) {
            None => false,
            Some((tag, wire, n)) => tag == f.tag && n <= field_bytes(f).len() && value_at(
                wire,
                tag,
                (field_bytes(f) + after).skip(n as int),
                depth,
            ) == Some((f.value, (field_bytes(f).len() - n) as nat)),
        },
{
    let s = field_bytes(f) + after;
    let wire: nat = if f.value is Varint {
        0
    } else {
        2
    };
    let key = (f.tag as nat * 8 + wire) as u64;
    let body = match f.value {
        WireView::Varint(v) => varint_bytes(v as nat),
        WireView::Bytes(b) => varint_bytes(b.len()) + b,
        _ => Seq::empty(),
    };
    assert(s =~= varint_bytes(key as nat) + (body + after));
    lemma_varint_u64_round_trip(key, body + after);
    let n = varint_bytes(key as nat).len();
    assert(key_at(s) == Some((f.tag, wire as u8, n)));
    let rest = s.skip(n as int);
    assert(rest =~= body + after);
    let m = body.len();
    match f.value {
        WireView::Varint(v) => {
            lemma_varint_u64_round_trip(v, after);
        },
        WireView::Bytes(b) => {
            assert(rest =~= varint_bytes(b.len()) + (b + after));
            lemma_varint_u64_round_trip(b.len() as u64, b + after);
            assert(rest.subrange(varint_bytes(b.len()).len() as int, m as int) =~= b);
        },
        _ => {},
    }
    assert(value_at(wire as u8, f.tag, rest, depth) == Some((f.value, m)));
}

/// The fields that were sent are the fields that are read, as long as the whole
/// is no longer than a 64-bit length can say.
pub proof fn lemma_fields_round_trip(fs: Seq<FieldView>, depth: nat)
    requires
        depth > 0,
        all_sendable(fs),
        bytes_of(fs).len() <= u64::MAX,
    ensures
        fields_of(bytes_of(fs), depth) == Some(fs),
    decreases fs.len(),
{
    let s = bytes_of(fs);
    if fs.len() == 0 {
        assert(fs =~= Seq::<FieldView>::empty());
    } else {
        let f = fs[0];
        let tail = fs.skip(1);
        let after = bytes_of(tail);
        assert(sendable(f) && all_sendable(tail)) by {
            reveal(all_sendable);
            assert forall|i: int| 0 <= i < tail.len() implies #[trigger] sendable(tail[i]) by {
                assert(sendable(fs[i + 1]));
            }
        }
        lemma_field_round_trip(f, after, depth);
        assert(s == field_bytes(f) + after);
        assert(s.skip(field_bytes(f).len() as int) =~= after);
        lemma_varint_run_len(s);
        assert(s.len() > 0);
        lemma_fields_round_trip(tail, depth);
        assert(seq![f] + tail =~= fs);
    }
}

/// Appends a field to an encoded message.
pub fn write_field(field: &Field, out: &mut Vec<u8>)
    requires
        sendable(field@),
    ensures
        final(out)@ == old(out)@ + field_bytes(field@),
{
    match &field.value {
        WireValue::Varint(v) => {
            encode_varint(field.tag as u64 * 8, out);
            encode_varint(*v, out);
            assert(out@ =~= old(out)@ + field_bytes(field@));
        },
        WireValue::Bytes(b) => {
            encode_varint(field.tag as u64 * 8 + 2, out);
            encode_varint(b.len() as u64, out);
            out.extend_from_slice(b.as_slice());
            assert(out@ =~= old(out)@ + field_bytes(field@));
        },
        _ => {},
    }
}

// ---------------------------------------------------------------------------
// Messages

/// A message is a value that fields are merged into one by one, and that is
/// sent as a list of fields.
pub trait Message: Sized + View {
    /// The message before any field is read.
    spec fn initial() -> Self::V;

    /// The message after one more field; none where the field does not fit.
    spec fn merged(v: Self::V, field: FieldView, depth: nat) -> Option<Self::V>;

    /// The fields that the message is sent as.
    spec fn sent(v: Self::V) -> Seq<FieldView>;

    fn empty() -> (r: Self)
        ensures
            r@ == Self::initial(),
    ;

    fn merge(&mut self, field: Field, depth: u32) -> (r: Result<(), DecodeError>)
        ensures
            match Self::merged(old(self)@, field@, depth as nat) {
                None => r is Err,
                Some(v) => r is Ok && final(self)@ == v,
            },
    ;

    fn to_fields(&self) -> (r: Vec<Field>)
        ensures
            crate::views(r@) == Self::sent(self@),
    ;

    proof fn sent_is_sendable(v: Self::V)
        ensures
            all_sendable(Self::sent(v)),
    ;
}

/// A message that loses nothing when it is sent.
pub trait Faithful: Message {
    /// How many levels of messages the message has inside it.
    spec fn levels() -> nat;

    /// Merging what a message is sent as gives the message back.
    proof fn merged_back(v: Self::V, depth: nat)
        requires
            depth > Self::levels(),
            bytes_of(Self::sent(v)).len() <= u64::MAX,
        ensures
            merge_all::<Self>(Self::initial(), Self::sent(v), depth) == Some(v),
    ;
}

/// The message that results when the fields are merged in order.
pub open spec fn merge_all<M: Message>(v: M::V, fs: Seq<FieldView>, depth: nat) -> Option<M::V>
    decreases fs.len(),
{
    if fs.len() == 0 {
        Some(v)
    } else {
        match M::merged(v, fs[0], depth) {
            None => None,
            Some(w) => merge_all::<M>(w, fs.skip(1), depth),
        }
    }
}

/// What the encoded fields of `s` make of the message `v`.
pub open spec fn merged_bytes<M: Message>(v: M::V, s: Seq<u8>, depth: nat) -> Option<M::V> {
    match fields_of(s, depth) {
        None => None,
        Some(fs) => merge_all::<M>(v, fs, depth),
    }
}

/// The message that `s` encodes.
pub open spec fn decoded<M: Message>(s: Seq<u8>) -> Option<M::V> {
    merged_bytes::<M>(M::initial(), s, RECURSION_LIMIT as nat)
}

/// The encoding of a message.
pub open spec fn encoded<M: Message>(v: M::V) -> Seq<u8> {
    bytes_of(M::sent(v))
}

/// Merging two lists of fields merges the one, then the other.
pub proof fn lemma_merge_all_concat<M: Message>(
    v: M::V,
    a: Seq<FieldView>,
    b: Seq<FieldView>,
    depth: nat,
)
    ensures
        merge_all::<M>(v, a + b, depth) == match merge_all::<M>(v, a, depth) {
            None => None,
            Some(w) => merge_all::<M>(w, b, depth),
        },
    decreases a.len(),
{
    if a.len() == 0 {
        assert(a + b =~= b);
    } else {
        assert((a + b).skip(1) =~= a.skip(1) + b);
        if let Some(w) = M::merged(v, a[0], depth) {
            lemma_merge_all_concat::<M>(w, a.skip(1), b, depth);
        }
    }
}

/// At any depth of nesting, the encoding of a message is read back as it.
pub proof fn lemma_encoded_round_trip<M: Faithful>(v: M::V, depth: nat)
    requires
        depth > M::levels(),
        encoded::<M>(v).len() <= u64::MAX,
    ensures
        merged_bytes::<M>(M::initial(), encoded::<M>(v), depth) == Some(v),
{
    M::sent_is_sendable(v);
    lemma_fields_round_trip(M::sent(v), depth);
    M::merged_back(v, depth);
}

/// Decoding what was encoded gives the message back.
pub proof fn lemma_decode_encode<M: Faithful>(v: M::V)
    requires
        M::levels() < RECURSION_LIMIT,
        encoded::<M>(v).len() <= u64::MAX,
    ensures
        decoded::<M>(encoded::<M>(v)) == Some(v),
{
    lemma_encoded_round_trip::<M>(v, RECURSION_LIMIT as nat);
}

/// Merges the encoded fields of `buf` into a message.
pub fn merge_bytes<M: Message>(message: &mut M, buf: &[u8], depth: u32) -> (r: Result<
    (),
    DecodeError,
>)
    ensures
        match merged_bytes::<M>(old(message)@, buf@, depth as nat) {
            None => r is Err,
            Some(v) => r is Ok && final(message)@ == v,
        },
{
    let mut fields = parse_fields(buf, depth)?;
    let ghost all = crate::views(fields@);
    let ghost start = message@;
    assert(all.skip(0) =~= all);
    let mut i: usize = 0;
    while i < fields.len()
        invariant
            start == old(message)@,
            fields_of(buf@, depth as nat) == Some(all),
            i <= fields@.len(),
            fields@.len() == all.len(),
            forall|k: int| i <= k < fields@.len() ==> (#[trigger] fields@[k])@ == all[k],
            merge_all::<M>(start, all, depth as nat) == merge_all::<M>(
                message@,
                all.skip(i as int),
                depth as nat,
            ),
        decreases fields@.len() - i,
    {
        let mut field = Field { tag: 0, value: WireValue::Group };
        std::mem::swap(&mut field, &mut fields[i]);
        assert(all.skip(i as int).skip(1) =~= all.skip(i + 1));
        message.merge(field, depth)?;
        i += 1;
    }
    Ok(())
}

/// Decodes a message.
pub fn decode<M: Message>(buf: &[u8]) -> (r: Result<M, DecodeError>)
    ensures
        match decoded::<M>(buf@) {
            None => r is Err,
            Some(v) => r matches Ok(m) && m@ == v,
        },
{
    let mut message = M::empty();
    merge_bytes(&mut message, buf, RECURSION_LIMIT)?;
    Ok(message)
}

/// Encodes a list of fields.
pub fn encode_fields(fields: &Vec<Field>) -> (r: Vec<u8>)
    requires
        all_sendable(crate::views(fields@)),
    ensures
        r@ == bytes_of(crate::views(fields@)),
{
    let ghost all = crate::views(fields@);
    let mut out: Vec<u8> = Vec::new();
    proof {
        assert(all.skip(0) =~= all);
        assert(Seq::<u8>::empty() + bytes_of(all) =~= bytes_of(all));
    }
    let mut i: usize = 0;
    while i < fields.len()
        invariant
            i <= fields@.len(),
            all == crate::views(fields@),
            all_sendable(all),
            bytes_of(all) == out@ + bytes_of(all.skip(i as int)),
        decreases fields@.len() - i,
    {
        proof {
            reveal(all_sendable);
        }
        assert(sendable(all[i as int]));
        let ghost before = out@;
        write_field(&fields[i], &mut out);
        assert(all.skip(i as int).skip(1) =~= all.skip(i + 1));
        assert(out@ + bytes_of(all.skip(i + 1)) =~= before + bytes_of(all.skip(i as int)));
        i += 1;
    }
    assert(out@ + Seq::<u8>::empty() =~= out@);
    out
}

/// Encodes a message.
pub fn encode<M: Message>(message: &M) -> (r: Vec<u8>)
    ensures
        r@ == encoded::<M>(message@),
{
    let fields = message.to_fields();
    proof {
        M::sent_is_sendable(message@);
    }
    encode_fields(&fields)
}


// ---------------------------------------------------------------------------
// The kinds of fields that messages have

/// The text of a field.
pub open spec fn as_text(value: WireView) -> Option<Seq<char>> {
    match value {
        WireView::Bytes(b) => if valid_utf8(b) {
            Some(decode_utf8(b))
        } else {
            None
        },
        _ => None,
    }
}

/// The bytes of a field.
pub open spec fn as_bytes(value: WireView) -> Option<Seq<u8>> {
    match value {
        WireView::Bytes(b) => Some(b),
        _ => None,
    }
}

/// The number of a field.
pub open spec fn as_number(value: WireView) -> Option<u64> {
    match value {
        WireView::Varint(v) => Some(v),
        _ => None,
    }
}

/// The message inside a field, merged into `v`.
pub open spec fn nested<M: Message>(v: M::V, value: WireView, depth: nat) -> Option<M::V> {
    match value {
        WireView::Bytes(b) => if depth == 0 {
            None
        } else {
            merged_bytes::<M>(v, b, (depth - 1) as nat)
        },
        _ => None,
    }
}

/// The varints that `s` is made of.
pub open spec fn varints_of(s: Seq<u8>) -> Option<Seq<u64>>
    decreases s.len(),
{
    proof {
        lemma_varint_run_len(s);
    }
    if s.len() == 0 {
        Some(Seq::empty())
    } else {
        match varint_at(s) {
            None => None,
            Some((v, n)) => match varints_of(s.skip(n as int)) {
                None => None,
                Some(rest) => Some(seq![v] + rest),
            },
        }
    }
}

/// The numbers of a repeated field: one by itself, or many packed in bytes.
pub open spec fn as_numbers(value: WireView) -> Option<Seq<u64>> {
    match value {
        WireView::Varint(v) => Some(seq![v]),
        WireView::Bytes(b) => varints_of(b),
        _ => None,
    }
}

/// Numbers that are cut to 32 bits.
pub open spec fn short_numbers(xs: Seq<u64>) -> Seq<i32> {
    xs.map_values(|x: u64| x as i32)
}

/// Calls `String::from_utf8`, which takes bytes that are UTF-8 for the text they
/// encode and refuses others.
#[verifier::external_body]
fn text_from_utf8(bytes: Vec<u8>) -> (r: Option<String>)
    ensures
        match r {
            Some(s) => encode_utf8(s@) == bytes@,
            None => !valid_utf8(bytes@),
        },
{
    String::from_utf8(bytes).ok()
}

impl WireValue {
    pub fn into_text(self) -> (r: Result<String, DecodeError>)
        ensures
            match as_text(self@) {
                None => r is Err,
                Some(x) => r matches Ok(s) && s@ == x,
            },
    {
        match self {
            WireValue::Bytes(b) => match text_from_utf8(b) {
                Some(s) => {
                    proof {
                        encode_utf8_valid_utf8(s@);
                        encode_utf8_decode_utf8(s@);
                    }
                    Ok(s)
                },
                None => Err(DecodeError),
            },
            _ => Err(DecodeError),
        }
    }

    pub fn into_bytes(self) -> (r: Result<Vec<u8>, DecodeError>)
        ensures
            match as_bytes(self@) {
                None => r is Err,
                Some(x) => r matches Ok(b) && b@ == x,
            },
    {
        match self {
            WireValue::Bytes(b) => Ok(b),
            _ => Err(DecodeError),
        }
    }

    pub fn into_number(self) -> (r: Result<u64, DecodeError>)
        ensures
            match as_number(self@) {
                None => r is Err,
                Some(x) => r == Ok::<u64, DecodeError>(x),
            },
    {
        match self {
            WireValue::Varint(v) => Ok(v),
            _ => Err(DecodeError),
        }
    }

    pub fn into_numbers(self) -> (r: Result<Vec<u64>, DecodeError>)
        ensures
            match as_numbers(self@) {
                None => r is Err,
                Some(x) => r matches Ok(v) && v@ == x,
            },
    {
        match self {
            WireValue::Varint(v) => {
                let mut out: Vec<u64> = Vec::new();
                out.push(v);
                assert(out@ =~= seq![v]);
                Ok(out)
            },
            WireValue::Bytes(b) => {
                let mut cur: &[u8] = b.as_slice();
                let mut out: Vec<u64> = Vec::new();
                while cur.len() > 0
                    invariant
                        self@ == WireView::Bytes(b@),
                        match varints_of(cur@) {
                            None => varints_of(b@) is None,
                            Some(rest) => varints_of(b@) == Some(out@ + rest),
                        },
                    decreases cur@.len(),
                {
                    proof {
                        lemma_varint_run_len(cur@);
                    }
                    match decode_varint(cur) {
                        None => {
                            return Err(DecodeError);
                        },
                        Some((v, next)) => {
                            proof {
                                if let Some(rest) = varints_of(next@) {
                                    assert(out@ + (seq![v] + rest) =~= out@.push(v) + rest);
                                }
                            }
                            out.push(v);
                            cur = next;
                        },
                    }
                }
                assert(out@ + Seq::<u64>::empty() =~= out@);
                Ok(out)
            },
            _ => Err(DecodeError),
        }
    }
}

/// Appends the numbers, each cut to 32 bits.
pub fn append_short(out: &mut Vec<i32>, xs: &Vec<u64>)
    ensures
        final(out)@ == old(out)@ + short_numbers(xs@),
{
    let mut i: usize = 0;
    while i < xs.len()
        invariant
            i <= xs@.len(),
            out@ == old(out)@ + short_numbers(xs@.take(i as int)),
        decreases xs@.len() - i,
    {
        proof {
            assert(short_numbers(xs@.take(i + 1)) =~= short_numbers(xs@.take(i as int)).push(
                xs@[i as int] as i32,
            ));
        }
        out.push(xs[i] as i32);
        i += 1;
    }
    assert(xs@.take(xs@.len() as int) =~= xs@);
}

/// Merges the message inside a field into `message`.
pub fn merge_nested<M: Message>(message: &mut M, value: WireValue, depth: u32) -> (r: Result<
    (),
    DecodeError,
>)
    ensures
        match nested::<M>(old(message)@, value@, depth as nat) {
            None => r is Err,
            Some(v) => r is Ok && final(message)@ == v,
        },
{
    match value {
        WireValue::Bytes(b) => {
            if depth == 0 {
                return Err(DecodeError);
            }
            merge_bytes(message, b.as_slice(), depth - 1)
        },
        _ => Err(DecodeError),
    }
}

/// A text field; the empty text is not sent.
pub open spec fn text_field(tag: u32, x: Seq<char>) -> Seq<FieldView> {
    if x.len() == 0 {
        Seq::empty()
    } else {
        seq![FieldView { tag, value: WireView::Bytes(encode_utf8(x)) }]
    }
}

/// A field of bytes; no bytes are not sent.
pub open spec fn bytes_field(tag: u32, x: Seq<u8>) -> Seq<FieldView> {
    if x.len() == 0 {
        Seq::empty()
    } else {
        seq![FieldView { tag, value: WireView::Bytes(x) }]
    }
}

/// A numeric field; zero is not sent.
pub open spec fn number_field(tag: u32, x: u64) -> Seq<FieldView> {
    if x == 0 {
        Seq::empty()
    } else {
        seq![FieldView { tag, value: WireView::Varint(x) }]
    }
}

/// A numeric field that is sent where there is a number, also where it is zero.
pub open spec fn optional_number_field(tag: u32, x: Option<u64>) -> Seq<FieldView> {
    match x {
        None => Seq::empty(),
        Some(n) => seq![FieldView { tag, value: WireView::Varint(n) }],
    }
}

/// A truth value as a number.
pub open spec fn flag(x: bool) -> u64 {
    if x {
        1
    } else {
        0
    }
}

/// A field for each text, in order.
pub open spec fn text_fields(tag: u32, xs: Seq<Seq<char>>) -> Seq<FieldView> {
    Seq::new(
        xs.len(),
        |i: int| FieldView { tag, value: WireView::Bytes(encode_utf8(xs[i])) },
    )
}

/// A field for each number, in order.
pub open spec fn number_fields(tag: u32, xs: Seq<i32>) -> Seq<FieldView> {
    Seq::new(xs.len(), |i: int| FieldView { tag, value: WireView::Varint(xs[i] as u64) })
}

/// A field for each message, in order.
pub open spec fn message_fields<M: Message>(tag: u32, xs: Seq<M::V>) -> Seq<FieldView> {
    Seq::new(
        xs.len(),
        |i: int| FieldView { tag, value: WireView::Bytes(encoded::<M>(xs[i])) },
    )
}

/// A field for the message, where there is one.
pub open spec fn message_field<M: Message>(tag: u32, x: Option<M::V>) -> Seq<FieldView> {
    match x {
        None => Seq::empty(),
        Some(v) => seq![FieldView { tag, value: WireView::Bytes(encoded::<M>(v)) }],
    }
}

pub fn push_text(out: &mut Vec<Field>, tag: u32, x: &String)
    ensures
        crate::views(final(out)@) == crate::views(old(out)@) + text_field(tag, x@),
{
    if !x.as_str().is_empty() {
        let field = Field {
            tag,
            value: WireValue::Bytes(vstd::slice::slice_to_vec(x.as_str().as_bytes())),
        };
        proof {
            crate::lemma_views_push(out@, field);
        }
        out.push(field);
    }
    assert(crate::views(out@) =~= crate::views(old(out)@) + text_field(tag, x@));
}

pub fn push_bytes(out: &mut Vec<Field>, tag: u32, x: &Vec<u8>)
    ensures
        crate::views(final(out)@) == crate::views(old(out)@) + bytes_field(tag, x@),
{
    if x.len() > 0 {
        let field = Field { tag, value: WireValue::Bytes(vstd::slice::slice_to_vec(x.as_slice())) };
        proof {
            crate::lemma_views_push(out@, field);
        }
        out.push(field);
    }
    assert(crate::views(out@) =~= crate::views(old(out)@) + bytes_field(tag, x@));
}

pub fn push_number(out: &mut Vec<Field>, tag: u32, x: u64)
    ensures
        crate::views(final(out)@) == crate::views(old(out)@) + number_field(tag, x),
{
    if x != 0 {
        let field = Field { tag, value: WireValue::Varint(x) };
        proof {
            crate::lemma_views_push(out@, field);
        }
        out.push(field);
    }
    assert(crate::views(out@) =~= crate::views(old(out)@) + number_field(tag, x));
}

pub fn push_optional_number(out: &mut Vec<Field>, tag: u32, x: Option<u64>)
    ensures
        crate::views(final(out)@) == crate::views(old(out)@) + optional_number_field(tag, x),
{
    if let Some(n) = x {
        let field = Field { tag, value: WireValue::Varint(n) };
        proof {
            crate::lemma_views_push(out@, field);
        }
        out.push(field);
    }
    assert(crate::views(out@) =~= crate::views(old(out)@) + optional_number_field(tag, x));
}

pub fn push_flag(out: &mut Vec<Field>, tag: u32, x: bool)
    ensures
        crate::views(final(out)@) == crate::views(old(out)@) + number_field(tag, flag(x)),
{
    push_number(
        out,
        tag,
        if x {
            1
        } else {
            0
        },
    )
}

pub fn push_texts(out: &mut Vec<Field>, tag: u32, xs: &Vec<String>)
    ensures
        crate::views(final(out)@) == crate::views(old(out)@) + text_fields(tag, crate::views(xs@)),
{
    let mut i: usize = 0;
    assert(crate::views(out@) =~= crate::views(old(out)@) + text_fields(tag, crate::views(xs@).take(0)));
    while i < xs.len()
        invariant
            i <= xs@.len(),
            crate::views(out@) == crate::views(old(out)@) + text_fields(tag, crate::views(xs@).take(i as int)),
        decreases xs@.len() - i,
    {
        let field = Field {
            tag,
            value: WireValue::Bytes(vstd::slice::slice_to_vec(xs[i].as_str().as_bytes())),
        };
        proof {
            crate::lemma_views_push(out@, field);
            assert(text_fields(tag, crate::views(xs@).take(i + 1)) =~= text_fields(
                tag,
                crate::views(xs@).take(i as int),
            ).push(field@));
            assert(crate::views(old(out)@) + text_fields(tag, crate::views(xs@).take(i as int)).push(field@)
                =~= (crate::views(old(out)@) + text_fields(tag, crate::views(xs@).take(i as int))).push(field@));
        }
        out.push(field);
        i += 1;
    }
    assert(crate::views(xs@).take(xs@.len() as int) =~= crate::views(xs@));
}

pub fn push_numbers(out: &mut Vec<Field>, tag: u32, xs: &Vec<i32>)
    ensures
        crate::views(final(out)@) == crate::views(old(out)@) + number_fields(tag, xs@),
{
    let mut i: usize = 0;
    assert(crate::views(out@) =~= crate::views(old(out)@) + number_fields(tag, xs@.take(0)));
    while i < xs.len()
        invariant
            i <= xs@.len(),
            crate::views(out@) == crate::views(old(out)@) + number_fields(tag, xs@.take(i as int)),
        decreases xs@.len() - i,
    {
        let field = Field { tag, value: WireValue::Varint(xs[i] as u64) };
        proof {
            crate::lemma_views_push(out@, field);
            assert(number_fields(tag, xs@.take(i + 1)) =~= number_fields(
                tag,
                xs@.take(i as int),
            ).push(field@));
            assert(crate::views(old(out)@) + number_fields(tag, xs@.take(i as int)).push(field@) =~= (
            crate::views(old(out)@) + number_fields(tag, xs@.take(i as int))).push(field@));
        }
        out.push(field);
        i += 1;
    }
    assert(xs@.take(xs@.len() as int) =~= xs@);
}

pub fn push_messages<M: Message>(out: &mut Vec<Field>, tag: u32, xs: &Vec<M>)
    ensures
        crate::views(final(out)@) == crate::views(old(out)@) + message_fields::<M>(tag, crate::views(xs@)),
{
    let mut i: usize = 0;
    assert(crate::views(out@) =~= crate::views(old(out)@) + message_fields::<M>(tag, crate::views(xs@).take(0)));
    while i < xs.len()
        invariant
            i <= xs@.len(),
            crate::views(out@) == crate::views(old(out)@) + message_fields::<M>(tag, crate::views(xs@).take(i as int)),
        decreases xs@.len() - i,
    {
        let field = Field { tag, value: WireValue::Bytes(encode(&xs[i])) };
        proof {
            crate::lemma_views_push(out@, field);
            assert(message_fields::<M>(tag, crate::views(xs@).take(i + 1)) =~= message_fields::<M>(
                tag,
                crate::views(xs@).take(i as int),
            ).push(field@));
            assert(crate::views(old(out)@) + message_fields::<M>(tag, crate::views(xs@).take(i as int)).push(
                field@,
            ) =~= (crate::views(old(out)@) + message_fields::<M>(tag, crate::views(xs@).take(i as int))).push(
                field@,
            ));
        }
        out.push(field);
        i += 1;
    }
    assert(crate::views(xs@).take(xs@.len() as int) =~= crate::views(xs@));
}

/// The view of a message that may be absent.
pub open spec fn view_option<M: View>(x: Option<M>) -> Option<M::V> {
    match x {
        None => None,
        Some(m) => Some(m@),
    }
}

pub fn push_message<M: Message>(out: &mut Vec<Field>, tag: u32, x: &Option<M>)
    ensures
        crate::views(final(out)@) == crate::views(old(out)@) + message_field::<M>(tag, view_option(*x)),
{
    if let Some(m) = x {
        let field = Field { tag, value: WireValue::Bytes(encode(m)) };
        proof {
            crate::lemma_views_push(out@, field);
        }
        out.push(field);
    }
    assert(crate::views(out@) =~= crate::views(old(out)@) + message_field::<M>(tag, view_option(*x)));
}

pub broadcast proof fn lemma_text_field_sendable(tag: u32, x: Seq<char>)
    requires
        1 <= tag < 0x2000_0000,
    ensures
        #[trigger] all_sendable(text_field(tag, x)),
{
    reveal(all_sendable);
}

pub broadcast proof fn lemma_bytes_field_sendable(tag: u32, x: Seq<u8>)
    requires
        1 <= tag < 0x2000_0000,
    ensures
        #[trigger] all_sendable(bytes_field(tag, x)),
{
    reveal(all_sendable);
}

pub broadcast proof fn lemma_number_field_sendable(tag: u32, x: u64)
    requires
        1 <= tag < 0x2000_0000,
    ensures
        #[trigger] all_sendable(number_field(tag, x)),
{
    reveal(all_sendable);
}

pub broadcast proof fn lemma_optional_number_field_sendable(tag: u32, x: Option<u64>)
    requires
        1 <= tag < 0x2000_0000,
    ensures
        #[trigger] all_sendable(optional_number_field(tag, x)),
{
    reveal(all_sendable);
}

pub broadcast proof fn lemma_text_fields_sendable(tag: u32, xs: Seq<Seq<char>>)
    requires
        1 <= tag < 0x2000_0000,
    ensures
        #[trigger] all_sendable(text_fields(tag, xs)),
{
    reveal(all_sendable);
}

pub broadcast proof fn lemma_number_fields_sendable(tag: u32, xs: Seq<i32>)
    requires
        1 <= tag < 0x2000_0000,
    ensures
        #[trigger] all_sendable(number_fields(tag, xs)),
{
    reveal(all_sendable);
}

pub broadcast proof fn lemma_message_fields_sendable<M: Message>(tag: u32, xs: Seq<M::V>)
    requires
        1 <= tag < 0x2000_0000,
    ensures
        #[trigger] all_sendable(message_fields::<M>(tag, xs)),
{
    reveal(all_sendable);
}

pub broadcast proof fn lemma_message_field_sendable<M: Message>(tag: u32, x: Option<M::V>)
    requires
        1 <= tag < 0x2000_0000,
    ensures
        #[trigger] all_sendable(message_field::<M>(tag, x)),
{
    reveal(all_sendable);
}

pub broadcast group group_sendable {
    lemma_all_sendable_concat,
    lemma_text_field_sendable,
    lemma_bytes_field_sendable,
    lemma_number_field_sendable,
    lemma_optional_number_field_sendable,
    lemma_text_fields_sendable,
    lemma_number_fields_sendable,
    lemma_message_fields_sendable,
    lemma_message_field_sendable,
}

// ---------------------------------------------------------------------------
// Steps of the proofs that messages are read back

/// What follows a list of fields is merged into what the list gives.
pub proof fn lemma_then<M: Message>(
    start: M::V,
    before: Seq<FieldView>,
    mid: M::V,
    next: Seq<FieldView>,
    end: M::V,
    depth: nat,
)
    requires
        merge_all::<M>(start, before, depth) == Some(mid),
        merge_all::<M>(mid, next, depth) == Some(end),
    ensures
        merge_all::<M>(start, before + next, depth) == Some(end),
{
    lemma_merge_all_concat::<M>(start, before, next, depth);
}

/// A field that is there is merged, one that is not changes nothing.
pub proof fn lemma_at_most_one<M: Message>(v: M::V, fs: Seq<FieldView>, w: M::V, depth: nat)
    requires
        fs.len() <= 1,
        fs.len() == 0 ==> v == w,
        fs.len() == 1 ==> M::merged(v, fs[0], depth) == Some(w),
    ensures
        merge_all::<M>(v, fs, depth) == Some(w),
{
    reveal_with_fuel(merge_all, 2);
}

/// Fields that each add one element to a list add all of them, in order.
pub proof fn lemma_repeated<M: Message, T>(
    put: spec_fn(Seq<T>) -> M::V,
    have: Seq<T>,
    xs: Seq<T>,
    fs: Seq<FieldView>,
    depth: nat,
)
    requires
        fs.len() == xs.len(),
        forall|pre: Seq<T>, j: int|
            0 <= j < xs.len() ==> #[trigger] M::merged(put(pre), fs[j], depth) == Some(
                put(pre.push(xs[j])),
            ),
    ensures
        merge_all::<M>(put(have), fs, depth) == Some(put(have + xs)),
    decreases xs.len(),
{
    if xs.len() == 0 {
        assert(have + xs =~= have);
    } else {
        let more = have.push(xs[0]);
        assert(M::merged(put(have), fs[0], depth) == Some(put(more)));
        assert forall|pre: Seq<T>, j: int| 0 <= j < xs.skip(1).len() implies #[trigger] M::merged(
            put(pre),
            fs.skip(1)[j],
            depth,
        ) == Some(put(pre.push(xs.skip(1)[j]))) by {
            assert(M::merged(put(pre), fs[j + 1], depth) == Some(put(pre.push(xs[j + 1]))));
        }
        lemma_repeated::<M, T>(put, more, xs.skip(1), fs.skip(1), depth);
        assert(more + xs.skip(1) =~= have + xs);
    }
}

/// A text is read back from the field it was put in.
pub proof fn lemma_text_back(x: Seq<char>)
    ensures
        as_text(WireView::Bytes(encode_utf8(x))) == Some(x),
        x.len() == 0 ==> x == Seq::<char>::empty(),
{
    encode_utf8_valid_utf8(x);
    encode_utf8_decode_utf8(x);
    assert(x.len() == 0 ==> x =~= Seq::<char>::empty());
}

/// Signed and short numbers survive being sent as 64 bits.
pub proof fn lemma_number_back(a: i32, b: i64, c: u32)
    ensures
        (a as u64) as i32 == a,
        (a as u64 == 0) <==> (a == 0),
        (b as u64) as i64 == b,
        (b as u64 == 0) <==> (b == 0),
        (c as u64) as u32 == c,
{
    assert((a as u64) as i32 == a) by (bit_vector);
    assert((a as u64 == 0) <==> (a == 0)) by (bit_vector);
    assert((b as u64) as i64 == b) by (bit_vector);
    assert((b as u64 == 0) <==> (b == 0)) by (bit_vector);
}

/// A numeric field with a small tag takes few bytes.
pub proof fn lemma_number_field_len(tag: u32, x: u64)
    requires
        tag < 16,
    ensures
        bytes_of(number_field(tag, x)).len() <= 11,
{
    reveal_with_fuel(bytes_of, 2);
    lemma_varint_u64_round_trip(x, Seq::empty());
    assert(varint_bytes((tag * 8) as nat).len() == 1);
}

/// No field of a list takes more bytes than the list.
pub proof fn lemma_field_fits(fs: Seq<FieldView>, i: int)
    requires
        0 <= i < fs.len(),
    ensures
        field_bytes(fs[i]).len() <= bytes_of(fs).len(),
        fs[i].value matches WireView::Bytes(b) ==> b.len() <= bytes_of(fs).len(),
    decreases fs.len(),
{
    if i > 0 {
        lemma_field_fits(fs.skip(1), i - 1);
        assert(fs.skip(1)[i - 1] == fs[i]);
    }
}

} // verus!
