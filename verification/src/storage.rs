//! Where files are kept: paths, `rclone` commands, and the writers of files that are
//! coming in.

use vstd::prelude::*;
use crate::config::GrizolConfig;
use crate::device_id;
use crate::file_writer;
use crate::file_writer::{
    ChunkAction, ConsolidateStep, FileWriter, FileWriterError, FileWriterState, FileWriterView,
};
use crate::syncthing::Request;
use crate::text;
use crate::wire;

verus! {

// ---------------------------------------------------------------------------
// The storage backends

/// The character has the Unicode property `White_Space`.
pub open spec fn whitespace(c: char) -> bool {
    let n = c as u32;
    ||| 0x9 <= n <= 0xd
    ||| n == 0x20 || n == 0x85 || n == 0xa0 || n == 0x1680
    ||| 0x2000 <= n <= 0x200a
    ||| n == 0x2028 || n == 0x2029 || n == 0x202f || n == 0x205f || n == 0x3000
}

/// Whether the character has the Unicode property `White_Space`.
fn is_whitespace(c: char) -> (r: bool)
    ensures
        r == whitespace(c),
{
    let n: u32 = c as u32;
    (0x9 <= n && n <= 0xd) || n == 0x20 || n == 0x85 || n == 0xa0 || n == 0x1680 || (0x2000 <= n
        && n <= 0x200a) || n == 0x2028 || n == 0x2029 || n == 0x202f || n == 0x205f || n == 0x3000
}

/// What is between the brackets that a text starts and ends with.
pub open spec fn bracketed(s: Seq<char>) -> Option<Seq<char>> {
    if s.len() >= 2 && s[0] == '[' && s.last() == ']' {
        Some(s.subrange(1, s.len() - 1))
    } else {
        None
    }
}

/// Calls `regex::Regex::new` and `captures` with the one pattern that is used here, on
/// a text of one line: the first group is what is between the brackets at the start
/// and the end of the text, and there is no match where they are missing.
#[verifier::external_body]
fn regex_group(pattern: &str, line: &str) -> (r: Option<String>)
    requires
        pattern@ == "^\\[(.*)\\]$"@,
        !line@.contains('\n'),
    ensures
        wire::view_option(r) == bracketed(line@),
{
    regex::Regex::new(pattern).unwrap().captures(line).map(|c| c[1].to_string())
}

pub open spec fn trimmed_start(s: Seq<char>) -> Seq<char>
    decreases s.len(),
{
    if s.len() > 0 && whitespace(s[0]) {
        trimmed_start(s.skip(1))
    } else {
        s
    }
}

pub open spec fn trimmed_end(s: Seq<char>) -> Seq<char>
    decreases s.len(),
{
    if s.len() > 0 && whitespace(s.last()) {
        trimmed_end(s.drop_last())
    } else {
        s
    }
}

/// The text without white space at its ends.
pub open spec fn trimmed(s: Seq<char>) -> Seq<char> {
    trimmed_end(trimmed_start(s))
}

/// Where the first line of a text ends.
pub open spec fn line_end(s: Seq<char>) -> nat
    decreases s.len(),
{
    if s.len() == 0 || s[0] == '\n' {
        0
    } else {
        1 + line_end(s.skip(1))
    }
}

/// The names in the lines that are a name in brackets.
pub open spec fn backends_in(s: Seq<char>) -> Seq<Seq<char>>
    decreases s.len(),
{
    let n = line_end(s) as int;
    if s.len() == 0 {
        Seq::empty()
    } else {
        let rest = if n < s.len() {
            backends_in(s.skip(n + 1))
        } else {
            Seq::empty()
        };
        match bracketed(trimmed(s.take(n))) {
            Some(name) => seq![name] + rest,
            None => rest,
        }
    }
}

/// Where the text without white space at its ends starts and ends.
fn trim_bounds(chars: &Vec<char>, from: usize, to: usize) -> (r: (usize, usize))
    requires
        from <= to <= chars@.len(),
    ensures
        from <= r.0 <= r.1 <= to,
        chars@.subrange(r.0 as int, r.1 as int) == trimmed(
            chars@.subrange(from as int, to as int),
        ),
{
    let ghost whole = chars@.subrange(from as int, to as int);
    let mut a: usize = from;
    while a < to && is_whitespace(chars[a])
        invariant
            from <= a <= to <= chars@.len(),
            whole == chars@.subrange(from as int, to as int),
            trimmed_start(whole) == trimmed_start(chars@.subrange(a as int, to as int)),
        ensures
            trimmed_start(whole) == chars@.subrange(a as int, to as int),
        decreases to - a,
    {
        assert(chars@.subrange(a as int, to as int).skip(1) =~= chars@.subrange(a + 1, to as int));
        a += 1;
    }
    let ghost mid = chars@.subrange(a as int, to as int);
    let mut b: usize = to;
    while a < b && is_whitespace(chars[b - 1])
        invariant
            from <= a <= b <= to <= chars@.len(),
            trimmed_end(mid) == trimmed_end(chars@.subrange(a as int, b as int)),
        ensures
            trimmed_end(mid) == chars@.subrange(a as int, b as int),
        decreases b - a,
    {
        assert(chars@.subrange(a as int, b as int).drop_last() =~= chars@.subrange(
            a as int,
            b - 1,
        ));
        b -= 1;
    }
    (a, b)
}

fn part_of(chars: &Vec<char>, from: usize, to: usize) -> (r: String)
    requires
        from <= to <= chars@.len(),
    ensures
        r@ == chars@.subrange(from as int, to as int),
{
    text::string_of(
        vstd::slice::slice_to_vec(vstd::slice::slice_subrange(chars.as_slice(), from, to)),
    )
}

/// The names of the storage backends, from what `rclone config show` prints.
pub fn parse_storage_backends(output: &str) -> (r: Vec<String>)
    ensures
        crate::views(r@) == backends_in(output@),
{
    let chars = text::chars_of(output);
    let n: usize = chars.len();
    let mut res: Vec<String> = Vec::new();
    let mut start: usize = 0;
    assert(chars@.skip(0) =~= chars@);
    assert(crate::views(res@) =~= Seq::empty());
    assert(crate::views(res@) + backends_in(chars@) =~= backends_in(chars@));
    while start < n
        invariant
            start <= n,
            n == chars@.len(),
            chars@ == output@,
            backends_in(output@) == crate::views(res@) + backends_in(chars@.skip(start as int)),
        decreases n - start,
    {
        let ghost rest = chars@.skip(start as int);
        let mut end: usize = start;
        while end < n && chars[end] != '\n'
            invariant
                start <= end <= n,
                n == chars@.len(),
                rest == chars@.skip(start as int),
                line_end(rest) == end - start + line_end(chars@.skip(end as int)),
                forall|i: int| start <= i < end ==> chars@[i] != '\n',
            ensures
                line_end(rest) == end - start,
            decreases n - end,
        {
            assert(chars@.skip(end as int).skip(1) =~= chars@.skip(end + 1));
            end += 1;
        }
        let (a, b) = trim_bounds(&chars, start, end);
        let line = part_of(&chars, a, b);
        assert(chars@.subrange(start as int, end as int) =~= rest.take(end - start));
        assert(!line@.contains('\n'));
        let found = regex_group("^\\[(.*)\\]$", line.as_str());
        let ghost more = if end < n {
            backends_in(rest.skip(end - start + 1))
        } else {
            Seq::empty()
        };
        let ghost before = crate::views(res@);
        match found {
            Some(name) => {
                proof {
                    crate::lemma_views_push(res@, name);
                    assert(before + (seq![name@] + more) =~= before.push(name@) + more);
                }
                res.push(name);
            },
            None => {},
        }
        if end < n {
            assert(rest.skip(end - start + 1) =~= chars@.skip(end + 1));
            start = end + 1;
        } else {
            assert(chars@.skip(n as int) =~= Seq::empty());
            start = n;
        }
    }
    assert(chars@.skip(n as int) =~= Seq::empty());
    assert(crate::views(res@) + Seq::empty() =~= crate::views(res@));
    res
}

// ---------------------------------------------------------------------------
// Paths and commands

/// A file in a folder below a directory.
pub open spec fn path_in(base: Seq<char>, folder: Seq<char>, name: Seq<char>) -> Seq<char> {
    base + "/"@ + folder + "/"@ + name
}

/// A file in a folder, without the directory.
pub open spec fn rel_path(folder: Seq<char>, name: Seq<char>) -> Seq<char> {
    folder + "/"@ + name
}

/// A file in a folder on a storage backend.
pub open spec fn path_on(
    backend: Seq<char>,
    bucket: Seq<char>,
    folder: Seq<char>,
    name: Seq<char>,
) -> Seq<char> {
    backend + ":"@ + bucket + "/"@ + folder + "/"@ + name
}

/// The argument that tells `rclone` where its configuration is; empty where it is not
/// told.
pub open spec fn config_arg(rclone_config: Option<Seq<char>>) -> Seq<char> {
    match rclone_config {
        Some(x) => "--config="@ + x,
        None => ""@,
    }
}

fn make_config_arg(rclone_config: &Option<String>) -> (r: String)
    ensures
        r@ == config_arg(wire::view_option(*rclone_config)),
{
    match rclone_config {
        Some(x) => {
            let mut arg = "--config=".to_owned();
            arg.append(x.as_str());
            arg
        },
        None => "".to_owned(),
    }
}

fn make_path_in(base: &str, folder: &str, name: &str) -> (r: String)
    ensures
        r@ == path_in(base@, folder@, name@),
{
    let mut path = base.to_owned();
    path.append("/");
    path.append(folder);
    path.append("/");
    path.append(name);
    path
}

fn make_rel_path(folder: &str, name: &str) -> (r: String)
    ensures
        r@ == rel_path(folder@, name@),
{
    let mut path = folder.to_owned();
    path.append("/");
    path.append(name);
    path
}

fn make_path_on(backend: &str, bucket: &str, folder: &str, name: &str) -> (r: String)
    ensures
        r@ == path_on(backend@, bucket@, folder@, name@),
{
    let mut path = backend.to_owned();
    path.append(":");
    path.append(bucket);
    path.append("/");
    path.append(folder);
    path.append("/");
    path.append(name);
    path
}

/// A command to run, and what it puts or removes where.
#[derive(Debug, PartialEq)]
pub struct RemoteOp {
    pub command: Vec<String>,
    pub storage_backend: String,
    pub location: String,
}

#[verifier::ext_equal]
pub struct RemoteOpView {
    pub command: Seq<Seq<char>>,
    pub storage_backend: Seq<char>,
    pub location: Seq<char>,
}

impl View for RemoteOp {
    type V = RemoteOpView;

    open spec fn view(&self) -> RemoteOpView {
        RemoteOpView {
            command: crate::views(self.command@),
            storage_backend: self.storage_backend@,
            location: self.location@,
        }
    }
}

/// The command that prints the storage backends.
pub fn storage_backends_command(rclone_config: &Option<String>) -> (r: Vec<String>)
    ensures
        crate::views(r@) == seq![
            "rclone"@,
            config_arg(wire::view_option(*rclone_config)),
            "config"@,
            "show"@,
        ],
{
    let mut command: Vec<String> = Vec::new();
    command.push("rclone".to_owned());
    command.push(make_config_arg(rclone_config));
    command.push("config".to_owned());
    command.push("show".to_owned());
    assert(crate::views(command@) =~= seq![
        "rclone"@,
        config_arg(wire::view_option(*rclone_config)),
        "config"@,
        "show"@,
    ]);
    command
}

/// The number that an offset in a request stands for, if it is one in a file.
pub fn file_offset(offset: i64) -> (r: Option<u64>)
    ensures
        r == (if offset >= 0 {
            Some(offset as u64)
        } else {
            None::<u64>
        }),
{
    if offset >= 0 {
        Some(offset as u64)
    } else {
        None
    }
}

/// A block to write: the file, how long it is to be made, and where the data goes.
#[derive(Debug, PartialEq)]
pub struct StoreBlock {
    pub abs_path: String,
    pub file_size: u64,
    pub offset: u64,
}

/// Whether the digest of what was written is the hash that was asked for.
pub fn digest_matches(digest: &[u8; 32], hash: &Vec<u8>) -> (r: bool)
    ensures
        r == (digest@ == hash@),
{
    if hash.len() != 32 {
        return false;
    }
    let mut i: usize = 0;
    while i < 32
        invariant
            i <= 32,
            hash@.len() == 32,
            forall|j: int| 0 <= j < i ==> digest@[j] == hash@[j],
        decreases 32 - i,
    {
        if digest[i] != hash[i] {
            return false;
        }
        i += 1;
    }
    assert(digest@ =~= hash@);
    true
}

/// Whether data is what a request asks for, by its SHA-256 digest.
pub fn is_requested_data(data: &[u8], request: &Request) -> (r: bool)
    ensures
        r == (device_id::sha256_of(data@) == request@.hash),
{
    digest_matches(&device_id::sha256(data), &request.hash)
}

/// How reading from the read cache goes on.
#[derive(Debug, Clone, Copy, PartialEq, Eq, Structural)]
pub enum CacheRead {
    /// Go forward by this much and read again.
    SkipAndRead(usize),
    /// Go forward by this much; then it is enough.
    SkipAndStop(usize),
    /// The file has ended.
    Stop,
}

/// What to do after `read_bytes` more bytes have come, where `size` are wanted and
/// `total` had come before.
pub fn after_cache_read(size: u32, total: usize, read_bytes: usize) -> (r: CacheRead)
    requires
        total < size,
        read_bytes <= size,
    ensures
        r == (if read_bytes == 0 {
            CacheRead::Stop
        } else if total + read_bytes < size {
            CacheRead::SkipAndRead(read_bytes)
        } else {
            CacheRead::SkipAndStop(read_bytes)
        }),
{
    if read_bytes == 0 {
        CacheRead::Stop
    } else if read_bytes < size as usize - total {
        CacheRead::SkipAndRead(read_bytes)
    } else {
        CacheRead::SkipAndStop(read_bytes)
    }
}

// ---------------------------------------------------------------------------
// The storage manager

/// A map of `dashmap`.
#[verifier::external_type_specification]
#[verifier::external_body]
#[verifier::reject_recursive_types(K)]
#[verifier::reject_recursive_types(V)]
#[verifier::reject_recursive_types(S)]
pub struct ExDashMap<K, V, S>(dashmap::DashMap<K, V, S>);

/// The writers that a map holds, by their keys.
pub uninterp spec fn writers_in(m: dashmap::DashMap<String, FileWriter>) -> Map<
    Seq<char>,
    FileWriterView,
>;

/// Calls `DashMap::new`: the map holds nothing.
#[verifier::external_body]
fn no_writers() -> (r: dashmap::DashMap<String, FileWriter>)
    ensures
        writers_in(r) =~= Map::empty(),
{
    dashmap::DashMap::new()
}

/// Calls `DashMap::insert`: the map holds the writer under the key, and what it held
/// there before is given back. The map is borrowed mutably, though `insert` needs no more
/// than a shared reference, so that nobody else can change it.
#[verifier::external_body]
fn insert_writer(m: &mut dashmap::DashMap<String, FileWriter>, key: String, writer: FileWriter) -> (r:
    Option<FileWriter>)
    ensures
        writers_in(*final(m)) == writers_in(*old(m)).insert(key@, writer@),
        match r {
            Some(w) => writers_in(*old(m)).dom().contains(key@) && w@ == writers_in(
                *old(m),
            )[key@],
            None => !writers_in(*old(m)).dom().contains(key@),
        },
{
    m.insert(key, writer)
}

/// Calls `DashMap::remove`: the map holds nothing under the key any more, and what it held
/// there before is given back. The map is borrowed mutably, as for `insert`.
#[verifier::external_body]
fn remove_writer(m: &mut dashmap::DashMap<String, FileWriter>, key: &String) -> (r: Option<
    FileWriter,
>)
    ensures
        writers_in(*final(m)) == writers_in(*old(m)).remove(key@),
        match r {
            Some(w) => writers_in(*old(m)).dom().contains(key@) && w@ == writers_in(
                *old(m),
            )[key@],
            None => !writers_in(*old(m)).dom().contains(key@),
        },
{
    m.remove(key).map(|entry| entry.1)
}

/// Knows where files are kept, and has the writers of files that are coming in.
#[derive(Debug)]
pub struct StorageManager {
    config: GrizolConfig,
    storage_backends: Vec<String>,
    file_writers: dashmap::DashMap<String, FileWriter>,
}

#[verifier::ext_equal]
pub struct StorageView {
    pub local_base_dir: Seq<char>,
    pub remote_base_dir: Seq<char>,
    pub read_cache_dir: Seq<char>,
    pub rclone_config: Option<Seq<char>>,
    pub storage_backends: Seq<Seq<char>>,
    /// The writers, by folder and file name.
    pub writers: Map<Seq<char>, FileWriterView>,
}

impl View for StorageManager {
    type V = StorageView;

    closed spec fn view(&self) -> StorageView {
        StorageView {
            local_base_dir: self.config.local_base_dir@,
            remote_base_dir: self.config.remote_base_dir@,
            read_cache_dir: self.config.read_cache_dir@,
            rclone_config: wire::view_option(self.config.rclone_config),
            storage_backends: crate::views(self.storage_backends@),
            writers: writers_in(self.file_writers),
        }
    }
}

/// One operation for every storage backend, in order.
pub open spec fn op_for_each(
    backends: Seq<Seq<char>>,
    op: spec_fn(Seq<char>) -> RemoteOpView,
) -> Seq<RemoteOpView> {
    backends.map_values(op)
}

/// Copies a file to a storage backend.
pub open spec fn upload_op(v: StorageView, folder: Seq<char>, name: Seq<char>, b: Seq<char>) -> RemoteOpView {
    RemoteOpView {
        command: seq![
            "rclone"@,
            config_arg(v.rclone_config),
            "copyto"@,
            path_in(v.local_base_dir, folder, name),
            path_on(b, v.remote_base_dir, folder, name),
        ],
        storage_backend: b,
        location: path_on(b, v.remote_base_dir, folder, name),
    }
}

/// Copies a file within a storage backend.
pub open spec fn copy_op(
    v: StorageView,
    orig_folder: Seq<char>,
    orig_name: Seq<char>,
    dest_folder: Seq<char>,
    dest_name: Seq<char>,
    b: Seq<char>,
) -> RemoteOpView {
    RemoteOpView {
        command: seq![
            "rclone"@,
            config_arg(v.rclone_config),
            "copyto"@,
            path_on(b, v.remote_base_dir, orig_folder, orig_name),
            path_on(b, v.remote_base_dir, dest_folder, dest_name),
        ],
        storage_backend: b,
        location: path_on(b, v.remote_base_dir, dest_folder, dest_name),
    }
}

/// Removes a file from a storage backend.
pub open spec fn delete_op(v: StorageView, folder: Seq<char>, name: Seq<char>, b: Seq<char>) -> RemoteOpView {
    RemoteOpView {
        command: seq![
            "rclone"@,
            config_arg(v.rclone_config),
            "delete"@,
            path_on(b, v.remote_base_dir, folder, name),
        ],
        storage_backend: b,
        location: path_on(b, v.remote_base_dir, folder, name),
    }
}

/// The writer of a file: the one there is, or else a new one.
pub open spec fn writer_for(
    v: StorageView,
    key: Seq<char>,
    path: Seq<char>,
    file_size: u64,
    chunk_size: u64,
) -> FileWriterView {
    if v.writers.dom().contains(key) {
        v.writers[key]
    } else {
        file_writer::fresh(path, file_size as usize, chunk_size as usize)
    }
}

/// The writer is well formed, writes the file with the given path, and goes by a suffix
/// that its path and sizes alone decide.
pub open spec fn is_writer_of(w: FileWriterView, path: Seq<char>) -> bool {
    &&& file_writer::writer_ok(w)
    &&& w.file_path == path
    &&& w.suffix == text::decimal(
        file_writer::writer_hash(path, w.file_size as usize, w.chunk_size as usize) as nat,
    )
}

/// Every writer is that of the local file that it is kept for.
pub open spec fn writers_ok(v: StorageView) -> bool {
    forall|key: Seq<char>| #[trigger]
        v.writers.dom().contains(key) ==> is_writer_of(
            v.writers[key],
            v.local_base_dir + "/"@ + key,
        )
}

proof fn lemma_path_in(base: Seq<char>, folder: Seq<char>, name: Seq<char>)
    ensures
        path_in(base, folder, name) == base + "/"@ + rel_path(folder, name),
{
    assert(path_in(base, folder, name) =~= base + "/"@ + rel_path(folder, name));
}

/// The writer of a file, be it there already or new, is that of the local file.
proof fn lemma_writer_for(
    v: StorageView,
    folder: Seq<char>,
    name: Seq<char>,
    file_size: u64,
    chunk_size: u64,
)
    requires
        writers_ok(v),
        0 < chunk_size <= usize::MAX,
        file_size + chunk_size - 1 <= usize::MAX,
    ensures
        ({
            let path = path_in(v.local_base_dir, folder, name);
            is_writer_of(
                writer_for(v, rel_path(folder, name), path, file_size, chunk_size),
                path,
            )
        }),
{
    lemma_path_in(v.local_base_dir, folder, name);
}

/// Blocks that were written before the client was started again are put together: where
/// there is no writer yet, the file is made below the local directory of the files that
/// the blocks were written to, as if the client had not stopped.
pub proof fn law_restart(
    before: StorageView,
    after: StorageView,
    folder: Seq<char>,
    name: Seq<char>,
    file_size: u64,
    chunk_size: u64,
)
    requires
        writers_ok(before),
        after == (StorageView { writers: Map::empty(), ..before }),
        0 < chunk_size <= usize::MAX,
        file_size + chunk_size - 1 <= usize::MAX,
        ({
            let key = rel_path(folder, name);
            before.writers.dom().contains(key) ==> before.writers[key].file_size == file_size
                && before.writers[key].chunk_size == chunk_size
        }),
    ensures
        ({
            let key = rel_path(folder, name);
            let path = path_in(before.local_base_dir, folder, name);
            let w = writer_for(before, key, path, file_size, chunk_size);
            let r = writer_for(after, key, path, file_size, chunk_size);
            &&& w.file_path == path && r.file_path == path
            &&& forall|i: nat|
                file_writer::chunk_path_of(w, i) == #[trigger] file_writer::chunk_path_of(r, i)
            &&& r.state == FileWriterState::WritingChunks(0)
            &&& !r.writing.contains(true)
            &&& forall|steps: Seq<ConsolidateStep>|
                file_writer::is_plan(w, steps) == #[trigger] file_writer::is_plan(r, steps)
        }),
{
    lemma_writer_for(before, folder, name, file_size, chunk_size);
    lemma_writer_for(after, folder, name, file_size, chunk_size);
    let key = rel_path(folder, name);
    let path = path_in(before.local_base_dir, folder, name);
    let w = writer_for(before, key, path, file_size, chunk_size);
    let r = writer_for(after, key, path, file_size, chunk_size);
    assert(w.suffix == r.suffix);
    assert forall|steps: Seq<ConsolidateStep>|
        file_writer::is_plan(w, steps) == #[trigger] file_writer::is_plan(r, steps) by {
        assert forall|j: nat| file_writer::chunk_path_of(w, j) == #[trigger]
            file_writer::chunk_path_of(r, j) by {}
    }
}

impl StorageManager {
    /// Every writer is that of the local file that it is kept for.
    pub open spec fn wf(&self) -> bool {
        writers_ok(self@)
    }

    /// A manager for the storage backends that `rclone config show` printed.
    pub fn new(config: GrizolConfig, rclone_output: &str) -> (r: Self)
        ensures
            r.wf(),
            r@ == (StorageView {
                local_base_dir: config.local_base_dir@,
                remote_base_dir: config.remote_base_dir@,
                read_cache_dir: config.read_cache_dir@,
                rclone_config: wire::view_option(config.rclone_config),
                storage_backends: backends_in(rclone_output@),
                writers: Map::empty(),
            }),
    {
        StorageManager {
            config,
            storage_backends: parse_storage_backends(rclone_output),
            file_writers: no_writers(),
        }
    }

    fn rclone(&self) -> (r: Vec<String>)
        ensures
            crate::views(r@) == seq!["rclone"@, config_arg(self@.rclone_config)],
    {
        let mut command: Vec<String> = Vec::new();
        command.push("rclone".to_owned());
        command.push(make_config_arg(&self.config.rclone_config));
        assert(crate::views(command@) =~= seq!["rclone"@, config_arg(self@.rclone_config)]);
        command
    }

    /// The command that copies a file from the remote into the read cache.
    pub fn cp_remote_to_read_cache(&self, folder: &str, name: &str) -> (r: Vec<String>)
        ensures
            crate::views(r@) == seq![
                "rclone"@,
                config_arg(self@.rclone_config),
                "copyto"@,
                path_on("gcs"@, self@.remote_base_dir, folder@, name@),
                path_in(self@.read_cache_dir, folder@, name@),
            ],
    {
        let orig = make_path_on("gcs", self.config.remote_base_dir.as_str(), folder, name);
        let dest = make_path_in(self.config.read_cache_dir.as_str(), folder, name);
        let mut command = self.rclone();
        let ghost before = crate::views(command@);
        command.push("copyto".to_owned());
        command.push(orig);
        command.push(dest);
        assert(crate::views(command@) =~= before + seq!["copyto"@, orig@, dest@]);
        command
    }

    /// The commands that copy a file from this device to every storage backend.
    pub fn cp_local_to_remote(&self, folder: &str, name: &str) -> (r: Vec<RemoteOp>)
        ensures
            crate::views(r@) == op_for_each(
                self@.storage_backends,
                |b: Seq<char>| upload_op(self@, folder@, name@, b),
            ),
    {
        let mut res: Vec<RemoteOp> = Vec::new();
        let mut i: usize = 0;
        while i < self.storage_backends.len()
            invariant
                i <= self.storage_backends@.len(),
                res@.len() == i,
                forall|j: int|
                    0 <= j < i ==> (#[trigger] res@[j])@ == upload_op(
                        self@,
                        folder@,
                        name@,
                        self@.storage_backends[j],
                    ),
            decreases self.storage_backends@.len() - i,
        {
            let orig = make_path_in(self.config.local_base_dir.as_str(), folder, name);
            let storage_backend = self.storage_backends[i].clone();
            let dest = make_path_on(
                storage_backend.as_str(),
                self.config.remote_base_dir.as_str(),
                folder,
                name,
            );
            let mut command = self.rclone();
            let ghost before = crate::views(command@);
            let location = dest.clone();
            command.push("copyto".to_owned());
            command.push(orig);
            command.push(dest);
            assert(crate::views(command@) =~= before + seq!["copyto"@, orig@, dest@]);
            let op = RemoteOp { command, storage_backend, location };
            assert(op@ =~= upload_op(self@, folder@, name@, self@.storage_backends[i as int]));
            res.push(op);
            i += 1;
        }
        assert(crate::views(res@) =~= op_for_each(
            self@.storage_backends,
            |b: Seq<char>| upload_op(self@, folder@, name@, b),
        ));
        res
    }

    /// The commands that copy a file within every storage backend.
    pub fn cp(&self, orig_folder: &str, orig_name: &str, dest_folder: &str, dest_name: &str) -> (r:
        Vec<RemoteOp>)
        ensures
            crate::views(r@) == op_for_each(
                self@.storage_backends,
                |b: Seq<char>|
                    copy_op(self@, orig_folder@, orig_name@, dest_folder@, dest_name@, b),
            ),
    {
        let mut res: Vec<RemoteOp> = Vec::new();
        let mut i: usize = 0;
        while i < self.storage_backends.len()
            invariant
                i <= self.storage_backends@.len(),
                res@.len() == i,
                forall|j: int|
                    0 <= j < i ==> (#[trigger] res@[j])@ == copy_op(
                        self@,
                        orig_folder@,
                        orig_name@,
                        dest_folder@,
                        dest_name@,
                        self@.storage_backends[j],
                    ),
            decreases self.storage_backends@.len() - i,
        {
            let storage_backend = self.storage_backends[i].clone();
            let bucket = self.config.remote_base_dir.as_str();
            let orig = make_path_on(storage_backend.as_str(), bucket, orig_folder, orig_name);
            let dest = make_path_on(storage_backend.as_str(), bucket, dest_folder, dest_name);
            let mut command = self.rclone();
            let ghost before = crate::views(command@);
            let location = dest.clone();
            command.push("copyto".to_owned());
            command.push(orig);
            command.push(dest);
            assert(crate::views(command@) =~= before + seq!["copyto"@, orig@, dest@]);
            let op = RemoteOp { command, storage_backend, location };
            assert(op@ =~= copy_op(
                self@,
                orig_folder@,
                orig_name@,
                dest_folder@,
                dest_name@,
                self@.storage_backends[i as int],
            ));
            res.push(op);
            i += 1;
        }
        assert(crate::views(res@) =~= op_for_each(
            self@.storage_backends,
            |b: Seq<char>| copy_op(self@, orig_folder@, orig_name@, dest_folder@, dest_name@, b),
        ));
        res
    }

    /// The commands that remove a file from every storage backend.
    pub fn rm(&self, folder: &str, file_name: &str) -> (r: Vec<RemoteOp>)
        ensures
            crate::views(r@) == op_for_each(
                self@.storage_backends,
                |b: Seq<char>| delete_op(self@, folder@, file_name@, b),
            ),
    {
        let mut res: Vec<RemoteOp> = Vec::new();
        let mut i: usize = 0;
        while i < self.storage_backends.len()
            invariant
                i <= self.storage_backends@.len(),
                res@.len() == i,
                forall|j: int|
                    0 <= j < i ==> (#[trigger] res@[j])@ == delete_op(
                        self@,
                        folder@,
                        file_name@,
                        self@.storage_backends[j],
                    ),
            decreases self.storage_backends@.len() - i,
        {
            let storage_backend = self.storage_backends[i].clone();
            let path = make_path_on(
                storage_backend.as_str(),
                self.config.remote_base_dir.as_str(),
                folder,
                file_name,
            );
            let mut command = self.rclone();
            let ghost before = crate::views(command@);
            let location = path.clone();
            command.push("delete".to_owned());
            command.push(path);
            assert(crate::views(command@) =~= before + seq!["delete"@, path@]);
            let op = RemoteOp { command, storage_backend, location };
            assert(op@ =~= delete_op(
                self@,
                folder@,
                file_name@,
                self@.storage_backends[i as int],
            ));
            res.push(op);
            i += 1;
        }
        assert(crate::views(res@) =~= op_for_each(
            self@.storage_backends,
            |b: Seq<char>| delete_op(self@, folder@, file_name@, b),
        ));
        res
    }

    /// Where a file is kept on this device.
    pub fn local_path(&self, folder: &str, name: &str) -> (r: String)
        ensures
            r@ == path_in(self@.local_base_dir, folder@, name@),
    {
        make_path_in(self.config.local_base_dir.as_str(), folder, name)
    }

    /// Where a file is kept in the read cache.
    pub fn read_cache_path(&self, folder: &str, name: &str) -> (r: String)
        ensures
            r@ == path_in(self@.read_cache_dir, folder@, name@),
    {
        make_path_in(self.config.read_cache_dir.as_str(), folder, name)
    }

    /// The files to remove from the read cache, given their folders and names.
    pub fn free_read_cache(&self, removed_files: &Vec<(String, String)>) -> (r: Vec<String>)
        ensures
            r@.len() == removed_files@.len(),
            forall|i: int|
                0 <= i < r@.len() ==> (#[trigger] r@[i])@ == path_in(
                    self@.read_cache_dir,
                    removed_files@[i].0@,
                    removed_files@[i].1@,
                ),
    {
        let mut res: Vec<String> = Vec::new();
        let mut i: usize = 0;
        while i < removed_files.len()
            invariant
                i <= removed_files@.len(),
                res@.len() == i,
                forall|j: int|
                    0 <= j < i ==> (#[trigger] res@[j])@ == path_in(
                        self@.read_cache_dir,
                        removed_files@[j].0@,
                        removed_files@[j].1@,
                    ),
            decreases removed_files@.len() - i,
        {
            res.push(
                self.read_cache_path(removed_files[i].0.as_str(), removed_files[i].1.as_str()),
            );
            i += 1;
        }
        res
    }

    /// What to write where for a block that came; nothing where the offset is negative.
    pub fn store_block(&self, request: &Request, file_size: u64) -> (r: Option<StoreBlock>)
        ensures
            match r {
                Some(x) => request@.offset >= 0 && x.offset == request@.offset && x.file_size
                    == file_size && x.abs_path@ == path_in(
                    self@.local_base_dir,
                    request@.folder,
                    request@.name,
                ),
                None => request@.offset < 0,
            },
    {
        match file_offset(request.offset) {
            Some(offset) => Some(
                StoreBlock {
                    abs_path: self.local_path(request.folder.as_str(), request.name.as_str()),
                    file_size,
                    offset,
                },
            ),
            None => None,
        }
    }

    fn take_writer(&mut self, key: &String, path: String, file_size: u64, chunk_size: u64) -> (r:
        FileWriter)
        requires
            0 < chunk_size <= usize::MAX,
            file_size + chunk_size - 1 <= usize::MAX,
        ensures
            r@ == writer_for(old(self)@, key@, path@, file_size, chunk_size),
            final(self)@ == (StorageView {
                writers: old(self)@.writers.remove(key@),
                ..old(self)@
            }),
    {
        match remove_writer(&mut self.file_writers, key) {
            Some(writer) => writer,
            None => FileWriter::new(path, file_size as usize, chunk_size as usize),
        }
    }

    fn put_writer(&mut self, key: String, writer: FileWriter)
        ensures
            final(self)@ == (StorageView {
                writers: old(self)@.writers.insert(key@, writer@),
                ..old(self)@
            }),
    {
        let _ = insert_writer(&mut self.file_writers, key, writer);
    }

    /// Decides what to do with a block that came, and notes that it is being written.
    pub fn begin_block(
        &mut self,
        request: &Request,
        data_len: usize,
        file_size: u64,
        chunk_size: u64,
    ) -> (r: Result<ChunkAction, FileWriterError>)
        requires
            old(self).wf(),
            0 < chunk_size <= usize::MAX,
            file_size + chunk_size - 1 <= usize::MAX,
            0 <= request@.offset <= usize::MAX,
            ({
                let key = rel_path(request@.folder, request@.name);
                old(self)@.writers.dom().contains(key) ==> old(self)@.writers[key].state
                    != FileWriterState::WritingChunks(usize::MAX)
            }),
        ensures
            final(self).wf(),
            ({
                let key = rel_path(request@.folder, request@.name);
                let path = path_in(old(self)@.local_base_dir, request@.folder, request@.name);
                let writer = writer_for(old(self)@, key, path, file_size, chunk_size);
                let offset = request@.offset as nat;
                let after = |w: FileWriterView|
                    StorageView { writers: old(self)@.writers.insert(key, w), ..old(self)@ };
                if offset == 0 && writer.file_size == 0 {
                    &&& final(self)@ == after(writer)
                    &&& r matches Ok(ChunkAction::CreateEmpty { path })
                    &&& path@ == file_writer::chunk_path_of(writer, 0)
                } else {
                    match file_writer::chunk_error(writer, data_len as nat, offset) {
                        Some(e) => r == Err::<ChunkAction, FileWriterError>(e) && final(self)@
                            == after(writer),
                        None => {
                            &&& r matches Ok(ChunkAction::Write { chunk_pos, path })
                            &&& chunk_pos == offset / writer.chunk_size
                            &&& chunk_pos < writer.writing.len()
                            &&& path@ == file_writer::chunk_path_of(writer, chunk_pos as nat)
                            &&& final(self)@ == after(
                                file_writer::with_chunk(writer, chunk_pos as int),
                            )
                        },
                    }
                }
            }),
    {
        let key = make_rel_path(request.folder.as_str(), request.name.as_str());
        let path = self.local_path(request.folder.as_str(), request.name.as_str());
        let ghost k = key@;
        proof {
            lemma_writer_for(self@, request@.folder, request@.name, file_size, chunk_size);
            lemma_path_in(self@.local_base_dir, request@.folder, request@.name);
        }
        let mut writer = self.take_writer(&key, path, file_size, chunk_size);
        let action = writer.begin_chunk(data_len, request.offset as usize);
        self.put_writer(key, writer);
        assert(old(self)@.writers.remove(k).insert(k, writer@) =~= old(self)@.writers.insert(
            k,
            writer@,
        ));
        action
    }

    /// Notes that a block was written, or that the file for it could not be opened.
    pub fn end_block(&mut self, request: &Request, chunk_pos: usize, opened: bool) -> (r: Result<
        (),
        FileWriterError,
    >)
        requires
            old(self).wf(),
            ({
                let key = rel_path(request@.folder, request@.name);
                &&& old(self)@.writers.dom().contains(key)
                &&& chunk_pos < old(self)@.writers[key].writing.len()
                &&& opened ==> old(self)@.writers[key].state != FileWriterState::WritingChunks(0)
            }),
        ensures
            final(self).wf(),
            ({
                let key = rel_path(request@.folder, request@.name);
                let writer = old(self)@.writers[key];
                let released = FileWriterView {
                    writing: writer.writing.update(chunk_pos as int, false),
                    ..writer
                };
                let after = |w: FileWriterView|
                    StorageView { writers: old(self)@.writers.insert(key, w), ..old(self)@ };
                if !opened {
                    r is Ok && final(self)@ == after(released)
                } else {
                    match writer.state {
                        FileWriterState::WritingChunks(n) => r is Ok && final(self)@ == after(
                            FileWriterView {
                                state: FileWriterState::WritingChunks((n - 1) as usize),
                                ..released
                            },
                        ),
                        FileWriterState::Consolidating => r == Err::<(), FileWriterError>(
                            FileWriterError::NotWriting,
                        ) && final(self)@ == after(released),
                    }
                }
            }),
    {
        let key = make_rel_path(request.folder.as_str(), request.name.as_str());
        let ghost k = key@;
        match remove_writer(&mut self.file_writers, &key) {
            Some(mut writer) => {
                let r = if opened {
                    writer.finish_chunk(chunk_pos)
                } else {
                    writer.fail_chunk(chunk_pos);
                    Ok(())
                };
                self.put_writer(key, writer);
                assert(old(self)@.writers.remove(k).insert(k, writer@)
                    =~= old(self)@.writers.insert(k, writer@));
                r
            },
            None => Ok(()),
        }
    }

    /// Starts putting a file together from its chunks. A writer is made where there is
    /// none: the chunks may have been written before the client was started.
    pub fn conclude_block_storage(&mut self, request: &Request, file_size: u64, chunk_size: u64) -> (r:
        Result<(String, Option<Vec<ConsolidateStep>>), FileWriterError>)
        requires
            old(self).wf(),
            0 < chunk_size <= usize::MAX,
            file_size + chunk_size - 1 <= usize::MAX,
        ensures
            final(self).wf(),
            ({
                let key = rel_path(request@.folder, request@.name);
                let path = path_in(old(self)@.local_base_dir, request@.folder, request@.name);
                let writer = writer_for(old(self)@, key, path, file_size, chunk_size);
                let after = |w: FileWriterView|
                    StorageView { writers: old(self)@.writers.insert(key, w), ..old(self)@ };
                match writer.state {
                    FileWriterState::Consolidating => r == Err::<
                        (String, Option<Vec<ConsolidateStep>>),
                        FileWriterError,
                    >(FileWriterError::StillConsolidating) && final(self)@ == after(writer),
                    FileWriterState::WritingChunks(n) => if n > 0 {
                        r == Err::<(String, Option<Vec<ConsolidateStep>>), FileWriterError>(
                            FileWriterError::Writing,
                        ) && final(self)@ == after(writer)
                    } else {
                        &&& final(self)@ == after(
                            FileWriterView { state: FileWriterState::Consolidating, ..writer },
                        )
                        &&& r matches Ok((path, steps))
                        &&& path@ == writer.file_path
                        &&& match steps {
                            None => writer.writing.contains(true),
                            Some(steps) => !writer.writing.contains(true) && file_writer::is_plan(
                                writer,
                                steps@,
                            ),
                        }
                    },
                }
            }),
    {
        let key = make_rel_path(request.folder.as_str(), request.name.as_str());
        let ghost k = key@;
        let path = self.local_path(request.folder.as_str(), request.name.as_str());
        proof {
            lemma_writer_for(self@, request@.folder, request@.name, file_size, chunk_size);
            lemma_path_in(self@.local_base_dir, request@.folder, request@.name);
        }
        let mut writer = self.take_writer(&key, path, file_size, chunk_size);
        let path = writer.file_path().clone();
        let steps = writer.begin_consolidate();
        self.put_writer(key, writer);
        assert(old(self)@.writers.remove(k).insert(k, writer@) =~= old(self)@.writers.insert(
            k,
            writer@,
        ));
        match steps {
            Ok(steps) => Ok((path, steps)),
            Err(e) => Err(e),
        }
    }

    /// Notes that a file has been put together.
    pub fn end_conclusion(&mut self, request: &Request)
        requires
            old(self).wf(),
        ensures
            final(self).wf(),
            ({
                let key = rel_path(request@.folder, request@.name);
                final(self)@ == (if old(self)@.writers.dom().contains(key) {
                    StorageView {
                        writers: old(self)@.writers.insert(
                            key,
                            FileWriterView {
                                state: FileWriterState::WritingChunks(0),
                                ..old(self)@.writers[key]
                            },
                        ),
                        ..old(self)@
                    }
                } else {
                    old(self)@
                })
            }),
    {
        let key = make_rel_path(request.folder.as_str(), request.name.as_str());
        let ghost k = key@;
        match remove_writer(&mut self.file_writers, &key) {
            Some(mut writer) => {
                writer.finish_consolidate();
                self.put_writer(key, writer);
                assert(old(self)@.writers.remove(k).insert(k, writer@)
                    =~= old(self)@.writers.insert(k, writer@));
            },
            None => {
                assert(old(self)@.writers.remove(k) =~= old(self)@.writers);
            },
        }
    }
}

} // verus!
