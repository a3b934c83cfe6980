//! What is to be done in the database: a query and the values that go into it.

use vstd::prelude::*;

verus! {

/// A query. Its values are bound in the order that is given here.
#[derive(Debug, Clone, Copy, PartialEq, Eq, Structural)]
pub enum Query {
    /// Begins a transaction.
    Begin,
    /// Ends a transaction.
    End,
    /// Makes sure there is an index: device, folder.
    InitIndex,
    /// Removes the files of an index: folder, device.
    DeleteFiles,
    /// Removes a file: folder, device, name.
    DeleteFile,
    /// Renames a file: new name, folder, device, name.
    RenameFile,
    /// Writes a file: folder, device, name, type, size, permissions, modified_s,
    /// modified_ns, modified_by, deleted, invalid, no_permissions, sequence,
    /// block_size, symlink_target.
    InsertFile,
    /// Writes a version of a file: folder, device, name, id, value.
    InsertVersion,
    /// Writes a block of a file: name, folder, device, offset, size, hash, weak_hash,
    /// storage status.
    InsertBlock,
    /// Writes a folder: id, label, read_only, ignore_permissions, ignore_delete,
    /// disable_temp_indexes, paused.
    InsertFolder,
    /// Writes a device: folder, id, name, addresses, compression, cert_name,
    /// max_sequence, introducer, index_id, skip_introduction_removals,
    /// encryption_password_token.
    InsertDevice,
    /// Writes where a file is kept: folder, device, name, storage backend, location.
    InsertLocation,
    /// Removes where a file is kept: folder, device, name, storage backend.
    DeleteLocation,
    /// Sets whether blocks are stored: storage status, name, folder, device, hash.
    SetBlockStatus,
}

/// A value that goes into a query.
#[derive(Debug, PartialEq)]
pub enum Value {
    Text(String),
    Int(i64),
    Bytes(Vec<u8>),
    Flag(bool),
}

#[verifier::ext_equal]
pub enum ValueView {
    Text(Seq<char>),
    Int(i64),
    Bytes(Seq<u8>),
    Flag(bool),
}

impl View for Value {
    type V = ValueView;

    open spec fn view(&self) -> ValueView {
        match *self {
            Value::Text(s) => ValueView::Text(s@),
            Value::Int(n) => ValueView::Int(n),
            Value::Bytes(b) => ValueView::Bytes(b@),
            Value::Flag(b) => ValueView::Flag(b),
        }
    }
}

/// A query with its values.
#[derive(Debug, PartialEq)]
pub struct Statement {
    pub query: Query,
    pub values: Vec<Value>,
}

#[verifier::ext_equal]
pub struct StatementView {
    pub query: Query,
    pub values: Seq<ValueView>,
}

impl View for Statement {
    type V = StatementView;

    open spec fn view(&self) -> StatementView {
        StatementView { query: self.query, values: crate::views(self.values@) }
    }
}

/// A query without values.
pub open spec fn bare(query: Query) -> StatementView {
    StatementView { query, values: Seq::empty() }
}

impl Statement {
    pub fn new(query: Query) -> (r: Self)
        ensures
            r@ == bare(query),
    {
        let r = Statement { query, values: Vec::new() };
        assert(r@.values =~= Seq::empty());
        r
    }

    pub fn add_text(&mut self, x: &str)
        ensures
            final(self)@ == (StatementView {
                values: old(self)@.values.push(ValueView::Text(x@)),
                ..old(self)@
            }),
    {
        let value = Value::Text(x.to_owned());
        proof {
            crate::lemma_views_push(self.values@, value);
        }
        self.values.push(value);
    }

    pub fn add_int(&mut self, x: i64)
        ensures
            final(self)@ == (StatementView {
                values: old(self)@.values.push(ValueView::Int(x)),
                ..old(self)@
            }),
    {
        let value = Value::Int(x);
        proof {
            crate::lemma_views_push(self.values@, value);
        }
        self.values.push(value);
    }

    pub fn add_bytes(&mut self, x: &Vec<u8>)
        ensures
            final(self)@ == (StatementView {
                values: old(self)@.values.push(ValueView::Bytes(x@)),
                ..old(self)@
            }),
    {
        let value = Value::Bytes(vstd::slice::slice_to_vec(x.as_slice()));
        proof {
            crate::lemma_views_push(self.values@, value);
        }
        self.values.push(value);
    }

    pub fn add_flag(&mut self, x: bool)
        ensures
            final(self)@ == (StatementView {
                values: old(self)@.values.push(ValueView::Flag(x)),
                ..old(self)@
            }),
    {
        let value = Value::Flag(x);
        proof {
            crate::lemma_views_push(self.values@, value);
        }
        self.values.push(value);
    }
}

/// Appends a statement.
pub fn add_statement(out: &mut Vec<Statement>, statement: Statement)
    ensures
        crate::views(final(out)@) == crate::views(old(out)@).push(statement@),
{
    proof {
        crate::lemma_views_push(out@, statement);
    }
    out.push(statement);
}

// ---------------------------------------------------------------------------
// Numbers as bytes

/// A 64-bit number, most significant byte first.
pub open spec fn be_bytes(n: u64) -> Seq<u8> {
    seq![
        (n / 0x100_0000_0000_0000) as u8,
        (n / 0x1_0000_0000_0000 % 256) as u8,
        (n / 0x100_0000_0000 % 256) as u8,
        (n / 0x1_0000_0000 % 256) as u8,
        (n / 0x100_0000 % 256) as u8,
        (n / 0x1_0000 % 256) as u8,
        (n / 0x100 % 256) as u8,
        (n % 256) as u8,
    ]
}

/// Eight bytes, the given ones first.
pub open spec fn padded(s: Seq<u8>) -> Seq<u8> {
    Seq::new(
        8,
        |i: int|
            if i < s.len() {
                s[i]
            } else {
                0
            },
    )
}

/// The number that at most eight bytes make, most significant byte first.
pub open spec fn number_of_bytes(s: Seq<u8>) -> Option<u64> {
    if s.len() <= 8 {
        Some(crate::device_id::short_id_of(padded(s)) as u64)
    } else {
        None
    }
}

pub fn to_be_bytes(n: u64) -> (r: Vec<u8>)
    ensures
        r@ == be_bytes(n),
{
    let mut out: Vec<u8> = Vec::new();
    out.push((n / 0x100_0000_0000_0000) as u8);
    out.push((n / 0x1_0000_0000_0000 % 256) as u8);
    out.push((n / 0x100_0000_0000 % 256) as u8);
    out.push((n / 0x1_0000_0000 % 256) as u8);
    out.push((n / 0x100_0000 % 256) as u8);
    out.push((n / 0x1_0000 % 256) as u8);
    out.push((n / 0x100 % 256) as u8);
    out.push((n % 256) as u8);
    assert(out@ =~= be_bytes(n));
    out
}

fn byte_at(s: &Vec<u8>, i: usize) -> (r: u64)
    requires
        i < 8,
    ensures
        r == padded(s@)[i as int],
{
    if i < s.len() {
        s[i] as u64
    } else {
        0
    }
}

pub fn from_be_bytes(s: &Vec<u8>) -> (r: Option<u64>)
    ensures
        r == number_of_bytes(s@),
{
    if s.len() > 8 {
        return None;
    }
    Some(
        byte_at(s, 0) * 0x100_0000_0000_0000 + byte_at(s, 1) * 0x1_0000_0000_0000 + byte_at(s, 2)
            * 0x100_0000_0000 + byte_at(s, 3) * 0x1_0000_0000 + byte_at(s, 4) * 0x100_0000
            + byte_at(s, 5) * 0x1_0000 + byte_at(s, 6) * 0x100 + byte_at(s, 7),
    )
}

/// A number is read back from its bytes.
pub proof fn law_bytes_round_trip(n: u64)
    ensures
        number_of_bytes(be_bytes(n)) == Some(n),
{
    let s = be_bytes(n);
    assert(padded(s) =~= s);
    let q1 = n / 256;
    let q2 = q1 / 256;
    let q3 = q2 / 256;
    let q4 = q3 / 256;
    let q5 = q4 / 256;
    let q6 = q5 / 256;
    let q7 = q6 / 256;
    lemma_div_256(n, 0x100, 0x1_0000);
    lemma_div_256(n, 0x1_0000, 0x100_0000);
    lemma_div_256(n, 0x100_0000, 0x1_0000_0000);
    lemma_div_256(n, 0x1_0000_0000, 0x100_0000_0000);
    lemma_div_256(n, 0x100_0000_0000, 0x1_0000_0000_0000);
    lemma_div_256(n, 0x1_0000_0000_0000, 0x100_0000_0000_0000);
    assert(q7 < 256);
    assert(s[0] == q7 && s[1] == q6 % 256 && s[2] == q5 % 256 && s[3] == q4 % 256 && s[4] == q3
        % 256 && s[5] == q2 % 256 && s[6] == q1 % 256 && s[7] == n % 256);
}

/// Dividing by a power of 256 and once more by 256 is dividing by the next power.
proof fn lemma_div_256(n: u64, d: u64, e: u64)
    requires
        d > 0,
        e == d * 256,
    ensures
        n / d / 256 == n / e,
{
    vstd::arithmetic::div_mod::lemma_div_denominator(n as int, d as int, 256);
}

} // verus!
