//! What the client remembers: the requests that it made, and what it keeps in the
//! database.
//!
//! Nothing here touches the database. What is to be written comes out as statements,
//! and what was read goes in as rows.

use vstd::prelude::*;
use std::collections::HashMap;
use crate::device_id;
use crate::device_id::DeviceId;
use crate::indices;
use crate::paths;
use crate::rows;
use crate::rows::{BadRow, BlockRow, BlockRowView};
use crate::statements;
use crate::statements::{Query, Statement, StatementView, ValueView};
use crate::syncthing::{
    BlockInfoView, ClusterConfig, CounterView, Device, DeviceView, FileInfo, FileInfoView, Folder,
    FolderView, Index, Request, RequestView, VectorView,
};
use crate::text;
use crate::types::{GrizolFileInfo, GrizolFolder, UploadStatus};
use crate::wire;

verus! {

/// A block of a file that a device has.
#[derive(Debug, PartialEq, Eq, Hash)]
pub struct BlockInfoExt {
    pub device_id: DeviceId,
    pub folder: String,
    pub name: String,
    pub hash: Vec<u8>,
    pub size: i32,
    pub offset: i64,
}

#[verifier::ext_equal]
pub struct BlockInfoExtView {
    pub device_id: Seq<u8>,
    pub folder: Seq<char>,
    pub name: Seq<char>,
    pub hash: Seq<u8>,
    pub size: i32,
    pub offset: i64,
}

impl View for BlockInfoExt {
    type V = BlockInfoExtView;

    open spec fn view(&self) -> BlockInfoExtView {
        BlockInfoExtView {
            device_id: self.device_id.id@,
            folder: self.folder@,
            name: self.name@,
            hash: self.hash@,
            size: self.size,
            offset: self.offset,
        }
    }
}

/// Where a block is stored.
#[derive(Debug, Clone, Copy, PartialEq, Eq, Structural)]
pub enum StorageStatus {
    NotStored,
    StoredLocally,
    StoredRemotely,
}

impl StorageStatus {
    pub open spec fn number(self) -> i64 {
        match self {
            StorageStatus::NotStored => 0,
            StorageStatus::StoredLocally => 1,
            StorageStatus::StoredRemotely => 2,
        }
    }

    /// The number that stands for the status in the database.
    pub fn to_number(self) -> (r: i64)
        ensures
            r == self.number(),
    {
        match self {
            StorageStatus::NotStored => 0,
            StorageStatus::StoredLocally => 1,
            StorageStatus::StoredRemotely => 2,
        }
    }
}

/// Why something cannot be written to the database.
#[derive(Debug, Clone, Copy, PartialEq, Eq, Structural)]
pub enum StateError {
    /// A file without a version.
    NoVersion,
    /// A counter that the database has no room for.
    CounterTooLarge,
    /// The number of the last change is not known.
    NoSequence,
    /// There is no number for another change.
    SequenceExhausted,
    /// The path does not name a file.
    NoFileName,
    /// The id of a device does not have the right length.
    BadDeviceId,
    /// The request is not known.
    NoRequest,
    /// The size of the file or of its blocks makes no sense.
    BadSize,
    /// More blocks are stored than the file has.
    TooManyBlocks,
}

/// What looking for the number of the last change gave.
#[derive(Debug, Clone, Copy, PartialEq, Eq, Structural)]
pub enum SequenceLookup {
    Found(i64),
    /// There are no files.
    Empty,
    /// The database reported an error.
    Failed,
}

// ---------------------------------------------------------------------------
// Renaming a file that is in conflict

/// The date and the time of a conflict, as they stand in the name of a file.
#[derive(Debug, PartialEq)]
pub struct ConflictTime {
    pub date: String,
    pub time: String,
}

impl View for ConflictTime {
    type V = (Seq<char>, Seq<char>);

    open spec fn view(&self) -> (Seq<char>, Seq<char>) {
        (self.date@, self.time@)
    }
}

/// How `chrono` writes the point in time that is `secs` seconds after the start of
/// 1970, in UTC; none where it has no date for it.
pub uninterp spec fn utc_text(secs: i64, format: Seq<char>) -> Option<Seq<char>>;

/// Calls `chrono::DateTime::from_timestamp` and `format`. The result, named by
/// `utc_text`, depends on the number and the format alone.
#[verifier::external_body]
fn format_utc(secs: i64, format: &str) -> (r: Option<String>)
    requires
        format@ == "%Y%m%d"@ || format@ == "%H%M%S"@,
    ensures
        wire::view_option(r) == utc_text(secs, format@),
{
    match chrono::DateTime::from_timestamp(secs, 0) {
        Some(t) => Some(t.format(format).to_string()),
        None => None,
    }
}

/// The date and the time that stand in the name of a file that is in conflict.
pub fn conflict_time(secs: i64) -> (r: Option<ConflictTime>)
    ensures
        match (utc_text(secs, "%Y%m%d"@), utc_text(secs, "%H%M%S"@)) {
            (Some(date), Some(time)) => r matches Some(x) && x.date@ == date && x.time@ == time,
            _ => r is None,
        },
{
    match (format_utc(secs, "%Y%m%d"), format_utc(secs, "%H%M%S")) {
        (Some(date), Some(time)) => Some(ConflictTime { date, time }),
        _ => None,
    }
}

/// The path of a file after it was renamed because of a conflict.
pub open spec fn conflict_path(
    path: Seq<char>,
    device_id: Seq<char>,
    date: Seq<char>,
    time: Seq<char>,
) -> Option<Seq<char>> {
    match (paths::file_name_of(path), paths::parent_of(path)) {
        (Some(name), Some(dir)) => Some(
            paths::joined(
                dir,
                paths::stem_of(name) + ".sync-conflict-"@ + date + "-"@ + time + "-"@ + device_id
                    + paths::dotted_extension_of(name),
            ),
        ),
        _ => None,
    }
}

/// Renames a file according to
/// <https://docs.syncthing.net/users/syncing.html#conflicting-changes>.
pub fn renamed_path(old_file_path: &str, device_id: &str, at: &ConflictTime) -> (r: Option<String>)
    ensures
        wire::view_option(r) == conflict_path(old_file_path@, device_id@, at.date@, at.time@),
{
    match (paths::file_name(old_file_path), paths::parent(old_file_path)) {
        (Some(old_name), Some(dir)) => {
            let (stem, extension) = paths::split_extension(old_name.as_str());
            let mut name = stem;
            name.append(".sync-conflict-");
            name.append(at.date.as_str());
            name.append("-");
            name.append(at.time.as_str());
            name.append("-");
            name.append(device_id);
            name.append(extension.as_str());
            Some(paths::join(dir.as_str(), name.as_str()))
        },
        _ => None,
    }
}

/// Renames a file because of a conflict at the given time, in seconds after the start
/// of 1970. There is no new path where the old one does not name a file, or where
/// there is no date for the time.
pub fn new_file_path(old_file_path: &str, device_id: &str, now: i64) -> (r: Option<String>)
    ensures
        wire::view_option(r) == (match (utc_text(now, "%Y%m%d"@), utc_text(now, "%H%M%S"@)) {
            (Some(date), Some(time)) => conflict_path(old_file_path@, device_id@, date, time),
            _ => None,
        }),
{
    match conflict_time(now) {
        Some(at) => renamed_path(old_file_path, device_id, &at),
        None => None,
    }
}

// ---------------------------------------------------------------------------
// Statements for files

/// What identifies a file in the database.
#[verifier::ext_equal]
pub struct FileKey {
    pub folder: Seq<char>,
    pub device: Seq<char>,
    pub name: Seq<char>,
}

pub open spec fn insert_file_statement(key: FileKey, f: FileInfoView, sequence: i64) -> StatementView {
    StatementView {
        query: Query::InsertFile,
        values: seq![
            ValueView::Text(key.folder),
            ValueView::Text(key.device),
            ValueView::Text(key.name),
            ValueView::Int(f.file_type as i64),
            ValueView::Int(f.size),
            ValueView::Int(f.permissions as i64),
            ValueView::Int(f.modified_s),
            ValueView::Int(f.modified_ns as i64),
            ValueView::Bytes(statements::be_bytes(f.modified_by)),
            ValueView::Flag(f.deleted),
            ValueView::Flag(f.invalid),
            ValueView::Flag(f.no_permissions),
            ValueView::Int(sequence),
            ValueView::Int(f.block_size as i64),
            ValueView::Text(f.symlink_target),
        ],
    }
}

pub open spec fn insert_version_statement(key: FileKey, c: CounterView) -> StatementView {
    StatementView {
        query: Query::InsertVersion,
        values: seq![
            ValueView::Text(key.folder),
            ValueView::Text(key.device),
            ValueView::Text(key.name),
            ValueView::Bytes(statements::be_bytes(c.id)),
            ValueView::Int(c.value as i64),
        ],
    }
}

pub open spec fn insert_block_statement(key: FileKey, b: BlockInfoView) -> StatementView {
    StatementView {
        query: Query::InsertBlock,
        values: seq![
            ValueView::Text(key.name),
            ValueView::Text(key.folder),
            ValueView::Text(key.device),
            ValueView::Int(b.offset),
            ValueView::Int(b.size as i64),
            ValueView::Bytes(b.hash),
            ValueView::Int(b.weak_hash as i64),
            ValueView::Int(StorageStatus::NotStored.number()),
        ],
    }
}

pub open spec fn delete_file_statement(key: FileKey) -> StatementView {
    StatementView {
        query: Query::DeleteFile,
        values: seq![
            ValueView::Text(key.folder),
            ValueView::Text(key.device),
            ValueView::Text(key.name),
        ],
    }
}

pub open spec fn rename_file_statement(key: FileKey, new_name: Seq<char>) -> StatementView {
    StatementView {
        query: Query::RenameFile,
        values: seq![
            ValueView::Text(new_name),
            ValueView::Text(key.folder),
            ValueView::Text(key.device),
            ValueView::Text(key.name),
        ],
    }
}

/// Why a file cannot be written.
pub open spec fn file_error(f: FileInfoView) -> Option<StateError> {
    match f.version {
        None => Some(StateError::NoVersion),
        Some(v) => if forall|i: int|
            0 <= i < v.counters.len() ==> (#[trigger] v.counters[i]).value <= i64::MAX {
            None
        } else {
            Some(StateError::CounterTooLarge)
        },
    }
}

/// What is written for a file: the file, its versions and its blocks.
pub open spec fn file_statements(key: FileKey, f: FileInfoView, sequence: i64) -> Seq<StatementView> {
    seq![insert_file_statement(key, f, sequence)] + f.version->0.counters.map_values(
        |c: CounterView| insert_version_statement(key, c),
    ) + f.blocks.map_values(|b: BlockInfoView| insert_block_statement(key, b))
}

fn make_insert_file(folder: &str, device: &str, f: &FileInfo, sequence: i64) -> (r: Statement)
    ensures
        r@ == insert_file_statement(
            FileKey { folder: folder@, device: device@, name: f@.name },
            f@,
            sequence,
        ),
{
    let mut s = Statement::new(Query::InsertFile);
    s.add_text(folder);
    s.add_text(device);
    s.add_text(f.name.as_str());
    s.add_int(f.file_type as i64);
    s.add_int(f.size);
    s.add_int(f.permissions as i64);
    s.add_int(f.modified_s);
    s.add_int(f.modified_ns as i64);
    s.add_bytes(&statements::to_be_bytes(f.modified_by));
    s.add_flag(f.deleted);
    s.add_flag(f.invalid);
    s.add_flag(f.no_permissions);
    s.add_int(sequence);
    s.add_int(f.block_size as i64);
    s.add_text(f.symlink_target.as_str());
    assert(s@ =~= insert_file_statement(
        FileKey { folder: folder@, device: device@, name: f@.name },
        f@,
        sequence,
    ));
    s
}

fn push_versions(out: &mut Vec<Statement>, folder: &str, device: &str, f: &FileInfo) -> (r: Result<
    (),
    StateError,
>)
    ensures
        match file_error(f@) {
            Some(e) => r == Err::<(), StateError>(e),
            None => r is Ok && crate::views(final(out)@) == crate::views(old(out)@)
                + f@.version->0.counters.map_values(
                |c: CounterView|
                    insert_version_statement(
                        FileKey { folder: folder@, device: device@, name: f@.name },
                        c,
                    ),
            ),
        },
{
    let ghost key = FileKey { folder: folder@, device: device@, name: f@.name };
    let ghost op = |c: CounterView| insert_version_statement(key, c);
    let version = match &f.version {
        Some(v) => v,
        None => {
            return Err(StateError::NoVersion);
        },
    };
    let ghost cs = version@.counters;
    let ghost before = crate::views(out@);
    let mut i: usize = 0;
    assert(before + cs.take(0).map_values(op) =~= before);
    while i < version.counters.len()
        invariant
            i <= version.counters@.len(),
            cs == crate::views(version.counters@),
            f@.version == Some(version@),
            cs == version@.counters,
            key == (FileKey { folder: folder@, device: device@, name: f@.name }),
            op == |c: CounterView| insert_version_statement(key, c),
            crate::views(out@) == before + cs.take(i as int).map_values(op),
            forall|j: int| 0 <= j < i ==> (#[trigger] cs[j]).value <= i64::MAX,
        decreases version.counters@.len() - i,
    {
        let counter = &version.counters[i];
        assert(cs[i as int] == counter@);
        if counter.value > i64::MAX as u64 {
            assert(f@.version->0.counters[i as int].value > i64::MAX);
            return Err(StateError::CounterTooLarge);
        }
        let mut s = Statement::new(Query::InsertVersion);
        s.add_text(folder);
        s.add_text(device);
        s.add_text(f.name.as_str());
        s.add_bytes(&statements::to_be_bytes(counter.id));
        s.add_int(counter.value as i64);
        assert(s@ =~= insert_version_statement(key, counter@));
        statements::add_statement(out, s);
        assert(cs.take(i + 1).map_values(op) =~= cs.take(i as int).map_values(op).push(
            op(cs[i as int]),
        ));
        assert(crate::views(out@) =~= before + cs.take(i + 1).map_values(op));
        i += 1;
    }
    assert(cs.take(cs.len() as int) =~= cs);
    Ok(())
}

fn push_blocks(out: &mut Vec<Statement>, folder: &str, device: &str, f: &FileInfo)
    ensures
        crate::views(final(out)@) == crate::views(old(out)@) + f@.blocks.map_values(
            |b: BlockInfoView|
                insert_block_statement(
                    FileKey { folder: folder@, device: device@, name: f@.name },
                    b,
                ),
        ),
{
    let ghost key = FileKey { folder: folder@, device: device@, name: f@.name };
    let ghost op = |b: BlockInfoView| insert_block_statement(key, b);
    let ghost bs = f@.blocks;
    let ghost before = crate::views(out@);
    let mut i: usize = 0;
    assert(before + bs.take(0).map_values(op) =~= before);
    while i < f.blocks.len()
        invariant
            i <= f.blocks@.len(),
            bs == crate::views(f.blocks@),
            key == (FileKey { folder: folder@, device: device@, name: f@.name }),
            op == |b: BlockInfoView| insert_block_statement(key, b),
            crate::views(out@) == before + bs.take(i as int).map_values(op),
        decreases f.blocks@.len() - i,
    {
        let block = &f.blocks[i];
        assert(bs[i as int] == block@);
        let mut s = Statement::new(Query::InsertBlock);
        s.add_text(f.name.as_str());
        s.add_text(folder);
        s.add_text(device);
        s.add_int(block.offset);
        s.add_int(block.size as i64);
        s.add_bytes(&block.hash);
        s.add_int(block.weak_hash as i64);
        s.add_int(StorageStatus::NotStored.to_number());
        assert(s@ =~= insert_block_statement(key, block@));
        statements::add_statement(out, s);
        assert(bs.take(i + 1).map_values(op) =~= bs.take(i as int).map_values(op).push(
            op(bs[i as int]),
        ));
        assert(crate::views(out@) =~= before + bs.take(i + 1).map_values(op));
        i += 1;
    }
    assert(bs.take(bs.len() as int) =~= bs);
}

fn push_file(out: &mut Vec<Statement>, folder: &str, device: &str, f: &FileInfo, sequence: i64) -> (r:
    Result<(), StateError>)
    ensures
        match file_error(f@) {
            Some(e) => r == Err::<(), StateError>(e),
            None => r is Ok && crate::views(final(out)@) == crate::views(old(out)@)
                + file_statements(
                FileKey { folder: folder@, device: device@, name: f@.name },
                f@,
                sequence,
            ),
        },
{
    let ghost before = crate::views(out@);
    let ghost key = FileKey { folder: folder@, device: device@, name: f@.name };
    statements::add_statement(out, make_insert_file(folder, device, f, sequence));
    push_versions(out, folder, device, f)?;
    push_blocks(out, folder, device, f);
    assert(crate::views(out@) =~= before + file_statements(key, f@, sequence));
    Ok(())
}

/// What is done with a file of the same name before another is written.
#[derive(Debug, PartialEq)]
pub enum Removal {
    /// Nothing: the file is written over.
    Keep,
    /// It is removed.
    Delete,
    /// It is renamed, as one in conflict. There is a time for each of the files.
    Rename(Vec<ConflictTime>),
}

pub enum RemovalView {
    Keep,
    Delete,
    Rename(Seq<(Seq<char>, Seq<char>)>),
}

impl View for Removal {
    type V = RemovalView;

    open spec fn view(&self) -> RemovalView {
        match *self {
            Removal::Keep => RemovalView::Keep,
            Removal::Delete => RemovalView::Delete,
            Removal::Rename(times) => RemovalView::Rename(crate::views(times@)),
        }
    }
}

/// There is a time for each of the files, where times are needed.
pub open spec fn has_times(removal: RemovalView, count: nat) -> bool {
    match removal {
        RemovalView::Rename(times) => times.len() == count,
        _ => true,
    }
}

/// A file that takes the place of another is left out where it was deleted.
pub open spec fn is_skipped(removal: RemovalView, f: FileInfoView) -> bool {
    !(removal is Keep) && f.deleted
}

/// The statement that makes room for the file at a position, if any is needed.
pub open spec fn removal_statement(removal: RemovalView, key: FileKey, i: int) -> Result<
    Option<StatementView>,
    StateError,
> {
    match removal {
        RemovalView::Keep => Ok(None),
        RemovalView::Delete => Ok(Some(delete_file_statement(key))),
        RemovalView::Rename(times) => match conflict_path(
            key.name,
            key.device,
            times[i].0,
            times[i].1,
        ) {
            Some(new_name) => Ok(Some(rename_file_statement(key, new_name))),
            None => Err(StateError::NoFileName),
        },
    }
}

/// The names that the file at a position has before and after it was renamed.
pub open spec fn renaming(removal: RemovalView, key: FileKey, i: int) -> Seq<
    (Seq<char>, Seq<char>),
> {
    match removal {
        RemovalView::Rename(times) => seq![
            (key.name, conflict_path(key.name, key.device, times[i].0, times[i].1)->0),
        ],
        _ => Seq::empty(),
    }
}

/// The number of the next change.
pub open spec fn next_sequence(sequence: Option<i64>) -> Result<i64, StateError> {
    match sequence {
        None => Err(StateError::NoSequence),
        Some(n) => if n == i64::MAX {
            Err(StateError::SequenceExhausted)
        } else {
            Ok((n + 1) as i64)
        },
    }
}

/// What is done for files: the statements, the number of the last change, and which
/// files were renamed to what.
#[verifier::ext_equal]
pub struct FilesPlan {
    pub statements: Seq<StatementView>,
    pub sequence: Option<i64>,
    pub renamed: Seq<(Seq<char>, Seq<char>)>,
}

pub open spec fn optional(x: Option<StatementView>) -> Seq<StatementView> {
    match x {
        Some(s) => seq![s],
        None => Seq::empty(),
    }
}

/// The plan with one more file, the one at position `i`.
pub open spec fn with_file(
    plan: FilesPlan,
    folder: Seq<char>,
    device: Seq<char>,
    f: FileInfoView,
    removal: RemovalView,
    i: int,
) -> Result<FilesPlan, StateError> {
    let key = FileKey { folder, device, name: f.name };
    if is_skipped(removal, f) {
        Ok(plan)
    } else {
        match removal_statement(removal, key, i) {
            Err(e) => Err(e),
            Ok(room) => match next_sequence(plan.sequence) {
                Err(e) => Err(e),
                Ok(n) => match file_error(f) {
                    Some(e) => Err(e),
                    None => Ok(
                        FilesPlan {
                            statements: plan.statements + optional(room) + file_statements(
                                key,
                                f,
                                n,
                            ),
                            sequence: Some(n),
                            renamed: plan.renamed + renaming(removal, key, i),
                        },
                    ),
                },
            },
        }
    }
}

/// What is done for files, in order, where `sequence` is the number of the last change.
pub open spec fn files_plan(
    files: Seq<FileInfoView>,
    folder: Seq<char>,
    device: Seq<char>,
    removal: RemovalView,
    sequence: Option<i64>,
) -> Result<FilesPlan, StateError>
    decreases files.len(),
{
    if files.len() == 0 {
        Ok(FilesPlan { statements: Seq::empty(), sequence, renamed: Seq::empty() })
    } else {
        match files_plan(files.drop_last(), folder, device, removal, sequence) {
            Err(e) => Err(e),
            Ok(plan) => with_file(
                plan,
                folder,
                device,
                files.last(),
                removal,
                files.len() - 1,
            ),
        }
    }
}

/// The position of the first file that is not left out.
pub open spec fn first_written(files: Seq<FileInfoView>, removal: RemovalView) -> Option<nat>
    decreases files.len(),
{
    if files.len() == 0 {
        None
    } else {
        match first_written(files.drop_last(), removal) {
            Some(i) => Some(i),
            None => if is_skipped(removal, files.last()) {
                None
            } else {
                Some((files.len() - 1) as nat)
            },
        }
    }
}

/// The statement that makes room for the first file that is written. It comes before
/// the number of the last change is looked up.
pub open spec fn first_removal(
    files: Seq<FileInfoView>,
    folder: Seq<char>,
    device: Seq<char>,
    removal: RemovalView,
) -> Result<Option<StatementView>, StateError> {
    match first_written(files, removal) {
        None => Ok(None),
        Some(i) => removal_statement(
            removal,
            FileKey { folder, device, name: files[i as int].name },
            i as int,
        ),
    }
}

proof fn lemma_files_plan_err(
    files: Seq<FileInfoView>,
    folder: Seq<char>,
    device: Seq<char>,
    removal: RemovalView,
    sequence: Option<i64>,
    n: int,
)
    requires
        0 <= n <= files.len(),
        files_plan(files.take(n), folder, device, removal, sequence) is Err,
    ensures
        files_plan(files, folder, device, removal, sequence) == files_plan(
            files.take(n),
            folder,
            device,
            removal,
            sequence,
        ),
    decreases files.len() - n,
{
    if n < files.len() {
        assert(files.take(n + 1).drop_last() =~= files.take(n));
        lemma_files_plan_err(files, folder, device, removal, sequence, n + 1);
    } else {
        assert(files.take(n) =~= files);
    }
}

/// What is done before the number of the last change is looked up, and what is done
/// after it, make up the plan.
pub proof fn law_plan_in_two_parts(
    files: Seq<FileInfoView>,
    folder: Seq<char>,
    device: Seq<char>,
    removal: RemovalView,
    sequence: Option<i64>,
)
    requires
        files_plan(files, folder, device, removal, sequence) is Ok,
    ensures
        first_removal(files, folder, device, removal) is Ok,
        first_written(files, removal) is None ==> (files_plan(
            files,
            folder,
            device,
            removal,
            sequence,
        )->Ok_0).statements.len() == 0,
        ({
            let all = (files_plan(files, folder, device, removal, sequence)->Ok_0).statements;
            let start = optional(first_removal(files, folder, device, removal)->Ok_0);
            start.len() <= all.len() && start + all.skip(start.len() as int) == all
        }),
    decreases files.len(),
{
    if files.len() == 0 {
        let all = (files_plan(files, folder, device, removal, sequence)->Ok_0).statements;
        assert(Seq::<StatementView>::empty() + all.skip(0) =~= all);
    } else {
        let front = files.drop_last();
        let f = files.last();
        law_plan_in_two_parts(front, folder, device, removal, sequence);
        lemma_first_written_bound(front, removal);
        let before = files_plan(front, folder, device, removal, sequence)->Ok_0;
        let after = files_plan(files, folder, device, removal, sequence)->Ok_0;
        let start = optional(first_removal(files, folder, device, removal)->Ok_0);
        if first_written(front, removal) is Some {
            assert(start + before.statements.skip(start.len() as int) =~= before.statements);
            assert forall|i: int| 0 <= i < start.len() implies start[i] == after.statements[i] by {
                assert(start[i] == (start + before.statements.skip(start.len() as int))[i]);
            }
            assert(start + after.statements.skip(start.len() as int) =~= after.statements);
        } else {
            assert(before.statements =~= Seq::empty());
            if is_skipped(removal, f) {
                assert(start + after.statements.skip(0) =~= after.statements);
            } else {
                assert(start + after.statements.skip(start.len() as int) =~= after.statements);
            }
        }
    }
}

/// What is first among some files is first among more of them.
proof fn lemma_first_written(files: Seq<FileInfoView>, removal: RemovalView, n: int)
    requires
        0 <= n <= files.len(),
        first_written(files.take(n), removal) is Some,
    ensures
        first_written(files, removal) == first_written(files.take(n), removal),
        first_written(files, removal)->0 < n,
    decreases files.len(),
{
    if n < files.len() {
        assert(files.drop_last().take(n) =~= files.take(n));
        lemma_first_written(files.drop_last(), removal, n);
    } else {
        assert(files.take(n) =~= files);
        lemma_first_written_bound(files, removal);
    }
}

proof fn lemma_first_written_bound(files: Seq<FileInfoView>, removal: RemovalView)
    ensures
        first_written(files, removal) matches Some(i) ==> i < files.len(),
    decreases files.len(),
{
    if files.len() > 0 {
        lemma_first_written_bound(files.drop_last(), removal);
    }
}

fn make_delete_file(folder: &str, device: &str, name: &str) -> (r: Statement)
    ensures
        r@ == delete_file_statement(FileKey { folder: folder@, device: device@, name: name@ }),
{
    let mut s = Statement::new(Query::DeleteFile);
    s.add_text(folder);
    s.add_text(device);
    s.add_text(name);
    assert(s@ =~= delete_file_statement(
        FileKey { folder: folder@, device: device@, name: name@ },
    ));
    s
}

fn make_rename_file(folder: &str, device: &str, name: &str, new_name: &str) -> (r: Statement)
    ensures
        r@ == rename_file_statement(
            FileKey { folder: folder@, device: device@, name: name@ },
            new_name@,
        ),
{
    let mut s = Statement::new(Query::RenameFile);
    s.add_text(new_name);
    s.add_text(folder);
    s.add_text(device);
    s.add_text(name);
    assert(s@ =~= rename_file_statement(
        FileKey { folder: folder@, device: device@, name: name@ },
        new_name@,
    ));
    s
}

/// The statement that makes room for the file at a position, and the new name of the file
/// that was there.
fn make_removal(removal: &Removal, folder: &str, device: &str, name: &str, i: usize) -> (r: Result<
    (Option<Statement>, Option<String>),
    StateError,
>)
    requires
        removal@ matches RemovalView::Rename(times) ==> i < times.len(),
    ensures
        ({
            let key = FileKey { folder: folder@, device: device@, name: name@ };
            match removal_statement(removal@, key, i as int) {
                Err(e) => r == Err::<(Option<Statement>, Option<String>), StateError>(e),
                Ok(room) => {
                    &&& r matches Ok((s, new_name))
                    &&& wire::view_option(s) == room
                    &&& match new_name {
                        Some(n) => renaming(removal@, key, i as int) == seq![(name@, n@)],
                        None => renaming(removal@, key, i as int) == Seq::<
                            (Seq<char>, Seq<char>),
                        >::empty(),
                    }
                },
            }
        }),
{
    match removal {
        Removal::Keep => Ok((None, None)),
        Removal::Delete => Ok((Some(make_delete_file(folder, device, name)), None)),
        Removal::Rename(times) => match renamed_path(name, device, &times[i]) {
            Some(new_name) => Ok(
                (
                    Some(make_rename_file(folder, device, name, new_name.as_str())),
                    Some(new_name),
                ),
            ),
            None => Err(StateError::NoFileName),
        },
    }
}

// ---------------------------------------------------------------------------
// The state

broadcast use vstd::std_specs::hash::group_hash_axioms;

/// What the client remembers while it runs.
#[derive(Debug)]
pub struct BepState {
    sequence: Option<i64>,
    request_id: i32,
    outgoing_requests: HashMap<i32, Request>,
}

#[verifier::ext_equal]
pub struct BepStateView {
    /// The number of the last change, once it is known.
    pub sequence: Option<i64>,
    /// The last id that a request was given.
    pub request_id: i32,
    /// The requests that were made, by id.
    pub requests: Map<i32, RequestView>,
}

impl View for BepState {
    type V = BepStateView;

    closed spec fn view(&self) -> BepStateView {
        BepStateView {
            sequence: self.sequence,
            request_id: self.request_id,
            requests: self.outgoing_requests@.map_values(|r: Request| r@),
        }
    }
}

/// Numbers may have been given to changes that are not made, and nothing else changed.
pub open spec fn only_sequence_changed(before: BepStateView, after: BepStateView) -> bool {
    after == (BepStateView { sequence: after.sequence, ..before })
}

/// The names before and after renaming.
pub open spec fn pair_views(s: Seq<(String, String)>) -> Seq<(Seq<char>, Seq<char>)> {
    s.map_values(|p: (String, String)| (p.0@, p.1@))
}

/// The requests after more were made, where later ones replace earlier ones with the
/// same id.
pub open spec fn with_requests(m: Map<i32, RequestView>, rs: Seq<RequestView>) -> Map<
    i32,
    RequestView,
>
    decreases rs.len(),
{
    if rs.len() == 0 {
        m
    } else {
        with_requests(m, rs.drop_last()).insert(rs.last().id, rs.last())
    }
}

impl BepState {
    pub fn new() -> (r: Self)
        ensures
            r@ == (BepStateView { sequence: None, request_id: 0, requests: Map::empty() }),
    {
        let r = BepState { sequence: None, request_id: 0, outgoing_requests: HashMap::new() };
        assert(r@.requests =~= Map::empty());
        r
    }

    /// Whether the number of the last change has to be looked up before a file is written.
    pub fn needs_sequence(&self) -> (r: bool)
        ensures
            r == (self@.sequence is None),
    {
        self.sequence.is_none()
    }

    /// Takes in what looking for the number of the last change gave. Where the database
    /// reported an error, numbers start from 0.
    pub fn set_sequence(&mut self, found: SequenceLookup)
        ensures
            final(self)@ == (BepStateView {
                sequence: match found {
                    SequenceLookup::Found(n) => Some(n),
                    SequenceLookup::Empty => None,
                    SequenceLookup::Failed => Some(0),
                },
                ..old(self)@
            }),
    {
        self.sequence = match found {
            SequenceLookup::Found(n) => Some(n),
            SequenceLookup::Empty => None,
            SequenceLookup::Failed => Some(0),
        };
    }

    /// The number of the next change.
    pub fn next_sequence_id(&mut self) -> (r: Result<i64, StateError>)
        ensures
            r == next_sequence(old(self)@.sequence),
            final(self)@ == (match r {
                Ok(n) => BepStateView { sequence: Some(n), ..old(self)@ },
                Err(_) => old(self)@,
            }),
    {
        match self.sequence {
            None => Err(StateError::NoSequence),
            Some(n) => {
                if n == i64::MAX {
                    return Err(StateError::SequenceExhausted);
                }
                self.sequence = Some(n + 1);
                Ok(n + 1)
            },
        }
    }

    /// What makes sure that there is an index of a folder for a device.
    pub fn init_index(folder: &str, device_id: &DeviceId) -> (r: Statement)
        ensures
            r@ == init_index_statement(folder@, device_id.id@),
    {
        let mut s = Statement::new(Query::InitIndex);
        s.add_text(device_id.to_string().as_str());
        s.add_text(folder);
        assert(s@ =~= init_index_statement(folder@, device_id.id@));
        s
    }

    /// What comes before the files of an index are written anew: a transaction is begun
    /// and the files that were there are removed.
    pub fn replace_index_start(folder: &str, device_id: &DeviceId) -> (r: Vec<Statement>)
        ensures
            crate::views(r@) == seq![
                statements::bare(Query::Begin),
                StatementView {
                    query: Query::DeleteFiles,
                    values: seq![
                        ValueView::Text(folder@),
                        ValueView::Text(device_id::text_of_id(device_id.id@)),
                    ],
                },
            ],
    {
        let mut out: Vec<Statement> = Vec::new();
        let ghost device = device_id::text_of_id(device_id.id@);
        assert(crate::views(out@) =~= Seq::empty());
        statements::add_statement(&mut out, Statement::new(Query::Begin));
        let mut s = Statement::new(Query::DeleteFiles);
        s.add_text(folder);
        s.add_text(device_id.to_string().as_str());
        assert(s@.values =~= seq![ValueView::Text(folder@), ValueView::Text(device)]);
        statements::add_statement(&mut out, s);
        assert(crate::views(out@) =~= seq![statements::bare(Query::Begin), s@]);
        out
    }

    /// What comes before files are written: a transaction is begun, and room is made for
    /// the first of them.
    pub fn replace_file_info_start(
        folder: &str,
        device_id: &DeviceId,
        file_info: &Vec<FileInfo>,
        removal: &Removal,
    ) -> (r: Result<Vec<Statement>, StateError>)
        requires
            has_times(removal@, file_info@.len()),
        ensures
            match first_removal(
                crate::views(file_info@),
                folder@,
                device_id::text_of_id(device_id.id@),
                removal@,
            ) {
                Err(e) => r == Err::<Vec<Statement>, StateError>(e),
                Ok(room) => r matches Ok(s) && crate::views(s@) == seq![
                    statements::bare(Query::Begin),
                ] + optional(room),
            },
    {
        let device = device_id.to_string();
        let ghost all = crate::views(file_info@);
        let mut out: Vec<Statement> = Vec::new();
        assert(crate::views(out@) =~= Seq::empty());
        statements::add_statement(&mut out, Statement::new(Query::Begin));
        assert(crate::views(out@) =~= seq![statements::bare(Query::Begin)]);
        let mut i: usize = 0;
        while i < file_info.len()
            invariant
                i <= file_info@.len(),
                has_times(removal@, file_info@.len()),
                all == crate::views(file_info@),
                device@ == device_id::text_of_id(device_id.id@),
                crate::views(out@) == seq![statements::bare(Query::Begin)],
                first_written(all.take(i as int), removal@) is None,
            decreases file_info@.len() - i,
        {
            let f = &file_info[i];
            proof {
                assert(all.take(i + 1).drop_last() =~= all.take(i as int));
                assert(all.take(i + 1).last() == f@);
            }
            let keeps = match removal {
                Removal::Keep => true,
                _ => false,
            };
            if keeps || !f.deleted {
                proof {
                    lemma_first_written(all, removal@, i + 1);
                }
                let (room, _) = make_removal(
                    removal,
                    folder,
                    device.as_str(),
                    f.name.as_str(),
                    i,
                )?;
                if let Some(s) = room {
                    statements::add_statement(&mut out, s);
                    assert(crate::views(out@) =~= seq![statements::bare(Query::Begin)] + seq![s@]);
                } else {
                    assert(crate::views(out@) =~= seq![statements::bare(Query::Begin)]
                        + Seq::empty());
                }
                return Ok(out);
            }
            i += 1;
        }
        assert(all.take(all.len() as int) =~= all);
        assert(crate::views(out@) =~= seq![statements::bare(Query::Begin)] + Seq::empty());
        Ok(out)
    }

    /// What is done after a transaction was begun and room was made for the first file:
    /// the files are written and the transaction is ended. Which files were renamed to
    /// what comes with it.
    pub fn replace_file_info(
        &mut self,
        folder: &str,
        device_id: &DeviceId,
        file_info: &Vec<FileInfo>,
        removal: &Removal,
    ) -> (r: Result<(Vec<Statement>, Vec<(String, String)>), StateError>)
        requires
            has_times(removal@, file_info@.len()),
        ensures
            ({
                let files = crate::views(file_info@);
                let device = device_id::text_of_id(device_id.id@);
                match files_plan(files, folder@, device, removal@, old(self)@.sequence) {
                    Err(e) => r == Err::<(Vec<Statement>, Vec<(String, String)>), StateError>(e)
                        && only_sequence_changed(old(self)@, final(self)@),
                    Ok(plan) => {
                        let start = optional(
                            first_removal(files, folder@, device, removal@)->Ok_0,
                        );
                        &&& r matches Ok((s, renamed))
                        &&& crate::views(s@) == plan.statements.skip(start.len() as int).push(
                            statements::bare(Query::End),
                        )
                        &&& pair_views(renamed@) == plan.renamed
                        &&& final(self)@ == (BepStateView {
                            sequence: plan.sequence,
                            ..old(self)@
                        })
                    },
                }
            }),
    {
        let device = device_id.to_string();
        let ghost all = crate::views(file_info@);
        let ghost seq0 = self@.sequence;
        let mut out: Vec<Statement> = Vec::new();
        let mut renamed: Vec<(String, String)> = Vec::new();
        let mut i: usize = 0;
        // Whether the statement that makes room for the first file has been left out.
        let mut started: bool = false;
        assert(crate::views(out@) =~= Seq::empty());
        assert(pair_views(renamed@) =~= Seq::empty());
        let ghost mut full: Seq<StatementView> = Seq::empty();
        assert(full.skip(0) =~= full);
        while i < file_info.len()
            invariant
                i <= file_info@.len(),
                all == crate::views(file_info@),
                device@ == device_id::text_of_id(device_id.id@),
                has_times(removal@, file_info@.len()),
                seq0 == old(self)@.sequence,
                self@ == (BepStateView { sequence: self@.sequence, ..old(self)@ }),
                started == (first_written(all.take(i as int), removal@) is Some),
                !started ==> full == Seq::<StatementView>::empty(),
                files_plan(all.take(i as int), folder@, device@, removal@, seq0) == Ok::<
                    FilesPlan,
                    StateError,
                >(
                    FilesPlan {
                        statements: full,
                        sequence: self@.sequence,
                        renamed: pair_views(renamed@),
                    },
                ),
                crate::views(out@) == full.skip(
                    optional(
                        first_removal(all.take(i as int), folder@, device@, removal@)->Ok_0,
                    ).len() as int,
                ),
                optional(
                    first_removal(all.take(i as int), folder@, device@, removal@)->Ok_0,
                ).len() <= full.len(),
            decreases file_info@.len() - i,
        {
            let f = &file_info[i];
            let ghost key = FileKey { folder: folder@, device: device@, name: f@.name };
            proof {
                assert(all.take(i + 1).drop_last() =~= all.take(i as int));
                assert(all.take(i + 1).last() == f@);
                lemma_first_written_bound(all.take(i as int), removal@);
            }
            let keeps = match removal {
                Removal::Keep => true,
                _ => false,
            };
            if keeps || !f.deleted {
                let ghost before = *self;
                let removed = make_removal(
                    removal,
                    folder,
                    device.as_str(),
                    f.name.as_str(),
                    i,
                );
                let (room, new_name) = match removed {
                    Ok(x) => x,
                    Err(e) => {
                        proof {
                            lemma_files_plan_err(all, folder@, device@, removal@, seq0, i + 1);
                        }
                        return Err(e);
                    },
                };
                let sequence: i64 = match self.next_sequence_id() {
                    Ok(n) => n,
                    Err(e) => {
                        proof {
                            lemma_files_plan_err(all, folder@, device@, removal@, seq0, i + 1);
                        }
                        return Err(e);
                    },
                };
                let ghost outs = crate::views(out@);
                let ghost was = full;
                let ghost room_view = wire::view_option(room);
                if started {
                    if let Some(s) = room {
                        statements::add_statement(&mut out, s);
                    }
                }
                match push_file(&mut out, folder, device.as_str(), f, sequence) {
                    Ok(()) => {},
                    Err(e) => {
                        proof {
                            lemma_files_plan_err(all, folder@, device@, removal@, seq0, i + 1);
                        }
                        return Err(e);
                    },
                }
                let ghost pairs = pair_views(renamed@);
                if let Some(new_name) = new_name {
                    let ghost pair = (f@.name, new_name@);
                    renamed.push((f.name.clone(), new_name));
                    assert(pair_views(renamed@) =~= pairs + seq![pair]);
                } else {
                    assert(pairs + Seq::empty() =~= pairs);
                }
                proof {
                    let written = file_statements(key, f@, sequence);
                    full = was + optional(room_view) + written;
                    if started {
                        assert(outs + optional(room_view) =~= match room_view {
                            Some(s) => outs.push(s),
                            None => outs,
                        });
                        let k = optional(
                            first_removal(
                                all.take(i as int),
                                folder@,
                                device@,
                                removal@,
                            )->Ok_0,
                        ).len() as int;
                        assert(full.skip(k) =~= was.skip(k) + optional(room_view) + written);
                        assert(crate::views(out@) =~= full.skip(k));
                    } else {
                        let k = optional(room_view).len() as int;
                        assert(full.skip(k) =~= written);
                        assert(outs =~= Seq::empty());
                        assert(crate::views(out@) =~= written);
                    }
                }
                started = true;
            }
            i += 1;
        }
        assert(all.take(all.len() as int) =~= all);
        statements::add_statement(&mut out, Statement::new(Query::End));
        Ok((out, renamed))
    }
}

/// What makes sure that there is an index of a folder for a device.
pub open spec fn init_index_statement(folder: Seq<char>, device_id: Seq<u8>) -> StatementView {
    StatementView {
        query: Query::InitIndex,
        values: seq![
            ValueView::Text(device_id::text_of_id(device_id)),
            ValueView::Text(folder),
        ],
    }
}

/// What is written for files that take the place of others, up to the end of the
/// transaction.
pub open spec fn is_rest_of_plan(
    s: Seq<StatementView>,
    plan: FilesPlan,
    start: Option<StatementView>,
) -> bool {
    s == plan.statements.skip(optional(start).len() as int).push(statements::bare(Query::End))
}

pub open spec fn insert_folder_statement(f: FolderView) -> StatementView {
    StatementView {
        query: Query::InsertFolder,
        values: seq![
            ValueView::Text(f.id),
            ValueView::Text(f.label),
            ValueView::Flag(f.read_only),
            ValueView::Flag(f.ignore_permissions),
            ValueView::Flag(f.ignore_delete),
            ValueView::Flag(f.disable_temp_indexes),
            ValueView::Flag(f.paused),
        ],
    }
}

pub open spec fn insert_device_statement(folder: Seq<char>, d: DeviceView) -> StatementView {
    StatementView {
        query: Query::InsertDevice,
        values: seq![
            ValueView::Text(folder),
            ValueView::Text(device_id::text_of_id(d.id)),
            ValueView::Text(d.name),
            ValueView::Text(rows::comma_joined(d.addresses)),
            ValueView::Int(d.compression as i64),
            ValueView::Text(d.cert_name),
            ValueView::Int(d.max_sequence),
            ValueView::Flag(d.introducer),
            ValueView::Bytes(statements::be_bytes(d.index_id)),
            ValueView::Flag(d.skip_introduction_removals),
            ValueView::Bytes(d.encryption_password_token),
        ],
    }
}

/// What is written for a folder and the devices that share it.
pub open spec fn folder_statements(f: FolderView) -> Seq<StatementView> {
    seq![insert_folder_statement(f)] + f.devices.map_values(
        |d: DeviceView| insert_device_statement(f.id, d),
    )
}

/// What is written for folders, in order.
pub open spec fn folders_statements(fs: Seq<FolderView>) -> Seq<StatementView>
    decreases fs.len(),
{
    if fs.len() == 0 {
        Seq::empty()
    } else {
        folders_statements(fs.drop_last()) + folder_statements(fs.last())
    }
}

/// The ids of all devices have the right length.
pub open spec fn device_ids_ok(ds: Seq<DeviceView>) -> bool {
    forall|i: int| 0 <= i < ds.len() ==> (#[trigger] ds[i]).id.len() == device_id::DEVICE_ID_LEN
}

pub open spec fn folders_ok(fs: Seq<FolderView>) -> bool {
    forall|i: int| 0 <= i < fs.len() ==> device_ids_ok((#[trigger] fs[i]).devices)
}

fn make_insert_device(folder: &str, d: &Device) -> (r: Result<Statement, StateError>)
    ensures
        if d@.id.len() == device_id::DEVICE_ID_LEN {
            r matches Ok(s) && s@ == insert_device_statement(folder@, d@)
        } else {
            r == Err::<Statement, StateError>(StateError::BadDeviceId)
        },
{
    let id = match DeviceId::try_from_bytes(d.id.as_slice()) {
        Ok(id) => id,
        Err(_) => {
            return Err(StateError::BadDeviceId);
        },
    };
    let mut s = Statement::new(Query::InsertDevice);
    s.add_text(folder);
    s.add_text(id.to_string().as_str());
    s.add_text(d.name.as_str());
    s.add_text(rows::join_commas(&d.addresses).as_str());
    s.add_int(d.compression as i64);
    s.add_text(d.cert_name.as_str());
    s.add_int(d.max_sequence);
    s.add_flag(d.introducer);
    s.add_bytes(&statements::to_be_bytes(d.index_id));
    s.add_flag(d.skip_introduction_removals);
    s.add_bytes(&d.encryption_password_token);
    assert(s@ =~= insert_device_statement(folder@, d@));
    Ok(s)
}

fn push_folder(out: &mut Vec<Statement>, f: &Folder) -> (r: Result<(), StateError>)
    ensures
        if device_ids_ok(f@.devices) {
            r is Ok && crate::views(final(out)@) == crate::views(old(out)@) + folder_statements(f@)
        } else {
            r == Err::<(), StateError>(StateError::BadDeviceId)
        },
{
    let ghost before = crate::views(out@);
    let ghost ds = f@.devices;
    let ghost op = |d: DeviceView| insert_device_statement(f@.id, d);
    let mut s = Statement::new(Query::InsertFolder);
    s.add_text(f.id.as_str());
    s.add_text(f.label.as_str());
    s.add_flag(f.read_only);
    s.add_flag(f.ignore_permissions);
    s.add_flag(f.ignore_delete);
    s.add_flag(f.disable_temp_indexes);
    s.add_flag(f.paused);
    let ghost first = insert_folder_statement(f@);
    assert(s@ =~= first);
    statements::add_statement(out, s);
    let mut i: usize = 0;
    assert(crate::views(out@) =~= before + seq![first] + ds.take(0).map_values(op));
    while i < f.devices.len()
        invariant
            i <= f.devices@.len(),
            ds == crate::views(f.devices@),
            ds == f@.devices,
            op == |d: DeviceView| insert_device_statement(f@.id, d),
            crate::views(out@) == before + seq![first] + ds.take(i as int).map_values(op),
            forall|j: int|
                0 <= j < i ==> (#[trigger] ds[j]).id.len() == device_id::DEVICE_ID_LEN,
        decreases f.devices@.len() - i,
    {
        assert(ds[i as int] == f.devices@[i as int]@);
        match make_insert_device(f.id.as_str(), &f.devices[i]) {
            Ok(s) => {
                statements::add_statement(out, s);
            },
            Err(e) => {
                return Err(e);
            },
        }
        assert(ds.take(i + 1).map_values(op) =~= ds.take(i as int).map_values(op).push(
            op(ds[i as int]),
        ));
        assert(crate::views(out@) =~= before + seq![first] + ds.take(i + 1).map_values(op));
        i += 1;
    }
    assert(ds.take(ds.len() as int) =~= ds);
    assert(crate::views(out@) =~= before + folder_statements(f@));
    Ok(())
}

pub open spec fn location_statement(
    key: FileKey,
    storage_backend: Seq<char>,
    location: Seq<char>,
) -> StatementView {
    StatementView {
        query: Query::InsertLocation,
        values: seq![
            ValueView::Text(key.folder),
            ValueView::Text(key.device),
            ValueView::Text(key.name),
            ValueView::Text(storage_backend),
            ValueView::Text(location),
        ],
    }
}

pub open spec fn remove_location_statement(key: FileKey, storage_backend: Seq<char>) -> StatementView {
    StatementView {
        query: Query::DeleteLocation,
        values: seq![
            ValueView::Text(key.folder),
            ValueView::Text(key.device),
            ValueView::Text(key.name),
            ValueView::Text(storage_backend),
        ],
    }
}

fn make_location(folder: &str, device: &str, name: &str, storage_backend: &str, location: &str) -> (r:
    Statement)
    ensures
        r@ == location_statement(
            FileKey { folder: folder@, device: device@, name: name@ },
            storage_backend@,
            location@,
        ),
{
    let mut s = Statement::new(Query::InsertLocation);
    s.add_text(folder);
    s.add_text(device);
    s.add_text(name);
    s.add_text(storage_backend);
    s.add_text(location);
    assert(s@ =~= location_statement(
        FileKey { folder: folder@, device: device@, name: name@ },
        storage_backend@,
        location@,
    ));
    s
}

/// How many blocks of a file are stored, and how large the file and its blocks are.
#[derive(Debug, Clone, Copy, PartialEq, Eq, Structural)]
pub struct BlockCount {
    pub block_size: i64,
    pub byte_size: i64,
    pub stored_blocks: i64,
}

/// The quotient, rounded toward zero.
pub open spec fn quotient(a: int, b: int) -> int {
    let q = magnitude(a) / magnitude(b);
    if (a < 0) == (b < 0) {
        q
    } else {
        -q
    }
}

pub open spec fn magnitude(a: int) -> int {
    if a < 0 {
        -a
    } else {
        a
    }
}

/// How many blocks a file has. Even an empty file has one.
pub open spec fn expected_blocks(byte_size: int, block_size: int) -> int {
    let n = quotient(byte_size + block_size - 1, block_size);
    if n < 1 {
        1
    } else {
        n
    }
}

/// Whether all blocks of a file are stored.
pub open spec fn upload_status(c: BlockCount) -> Result<UploadStatus, StateError> {
    let total = c.byte_size + c.block_size - 1;
    if c.block_size == 0 || c.byte_size + c.block_size > i64::MAX || c.byte_size + c.block_size
        < i64::MIN || total < i64::MIN || (total == i64::MIN && c.block_size == -1) {
        Err(StateError::BadSize)
    } else {
        let expected = expected_blocks(c.byte_size as int, c.block_size as int);
        if c.stored_blocks == expected {
            Ok(UploadStatus::AllBlocks)
        } else if c.stored_blocks < expected {
            Ok(UploadStatus::BlocksMissing)
        } else {
            Err(StateError::TooManyBlocks)
        }
    }
}

fn divide(a: i128, b: i128) -> (r: i128)
    requires
        b != 0,
        -0x1_0000_0000_0000_0000 <= a <= 0x1_0000_0000_0000_0000,
        -0x1_0000_0000_0000_0000 <= b <= 0x1_0000_0000_0000_0000,
    ensures
        r == quotient(a as int, b as int),
{
    let x: u128 = if a < 0 {
        (-a) as u128
    } else {
        a as u128
    };
    let y: u128 = if b < 0 {
        (-b) as u128
    } else {
        b as u128
    };
    let q: u128 = x / y;
    assert(q <= x) by {
        vstd::arithmetic::div_mod::lemma_div_is_ordered_by_denominator(x as int, 1, y as int);
    }
    if (a < 0) == (b < 0) {
        q as i128
    } else {
        -(q as i128)
    }
}

/// Whether all blocks of a file are stored.
pub fn block_upload_status(c: BlockCount) -> (r: Result<UploadStatus, StateError>)
    ensures
        r == upload_status(c),
{
    let sum: i128 = c.byte_size as i128 + c.block_size as i128;
    let total: i128 = sum - 1;
    if c.block_size == 0 || sum > i64::MAX as i128 || sum < i64::MIN as i128 || total
        < i64::MIN as i128 || (total == i64::MIN as i128 && c.block_size == -1) {
        return Err(StateError::BadSize);
    }
    let n: i128 = divide(total, c.block_size as i128);
    let expected: i128 = if n < 1 {
        1
    } else {
        n
    };
    if c.stored_blocks as i128 == expected {
        Ok(UploadStatus::AllBlocks)
    } else if (c.stored_blocks as i128) < expected {
        Ok(UploadStatus::BlocksMissing)
    } else {
        Err(StateError::TooManyBlocks)
    }
}

/// That more blocks are stored than a file has, in words.
pub open spec fn too_many_text(name: Seq<char>, c: BlockCount) -> Seq<char> {
    "We ended up storing too many blocks for file: "@ + name + ", expected blocks "@
        + text::signed_decimal(expected_blocks(c.byte_size as int, c.block_size as int))
        + ", actual blocks "@ + text::signed_decimal(c.stored_blocks as int)
}

/// That more blocks are stored than a file has, in words, where this is so.
pub fn too_many_blocks(name: &str, c: BlockCount) -> (r: Option<String>)
    ensures
        match r {
            Some(m) => upload_status(c) == Err::<UploadStatus, StateError>(
                StateError::TooManyBlocks,
            ) && m@ == too_many_text(name@, c),
            None => upload_status(c) != Err::<UploadStatus, StateError>(StateError::TooManyBlocks),
        },
{
    match block_upload_status(c) {
        Err(StateError::TooManyBlocks) => {
            let n: i128 = divide(
                c.byte_size as i128 + c.block_size as i128 - 1,
                c.block_size as i128,
            );
            let expected: i128 = if n < 1 {
                1
            } else {
                n
            };
            let mut m = "We ended up storing too many blocks for file: ".to_owned();
            m.append(name);
            m.append(", expected blocks ");
            m.append(text::signed_text(expected as i64).as_str());
            m.append(", actual blocks ");
            m.append(text::signed_text(c.stored_blocks).as_str());
            Some(m)
        },
        _ => None,
    }
}

/// What is done once a block is stored, before the blocks are counted.
pub open spec fn block_stored_statements(r: RequestView, device: Seq<char>) -> Seq<StatementView> {
    seq![
        statements::bare(Query::Begin),
        StatementView {
            query: Query::SetBlockStatus,
            values: seq![
                ValueView::Int(StorageStatus::StoredLocally.number()),
                ValueView::Text(r.name),
                ValueView::Text(r.folder),
                ValueView::Text(device),
                ValueView::Bytes(r.hash),
            ],
        },
    ]
}

/// What is done after the blocks were counted.
pub open spec fn blocks_counted_statements(
    r: RequestView,
    device: Seq<char>,
    status: Result<UploadStatus, StateError>,
) -> Seq<StatementView> {
    let key = FileKey { folder: r.folder, device, name: r.name };
    if status == Ok::<UploadStatus, StateError>(UploadStatus::AllBlocks) {
        seq![location_statement(key, "local"@, r.name), statements::bare(Query::End)]
    } else {
        seq![statements::bare(Query::End)]
    }
}

/// The blocks that rows stand for, in order.
pub open spec fn unstored_blocks_of(rs: Seq<BlockRowView>, device_id: Seq<u8>) -> Option<
    Seq<BlockInfoExtView>,
>
    decreases rs.len(),
{
    if rs.len() == 0 {
        Some(Seq::empty())
    } else {
        let row = rs.last();
        match unstored_blocks_of(rs.drop_last(), device_id) {
            None => None,
            Some(before) => if i32::MIN <= row.bi_size <= i32::MAX {
                Some(
                    before.push(
                        BlockInfoExtView {
                            device_id,
                            folder: row.folder,
                            name: row.name,
                            hash: row.hash,
                            size: row.bi_size as i32,
                            offset: row.offset,
                        },
                    ),
                )
            } else {
                None
            },
        }
    }
}

proof fn lemma_unstored_none(rs: Seq<BlockRowView>, device_id: Seq<u8>, n: int)
    requires
        0 <= n <= rs.len(),
        unstored_blocks_of(rs.take(n), device_id) is None,
    ensures
        unstored_blocks_of(rs, device_id) is None,
    decreases rs.len() - n,
{
    if n < rs.len() {
        assert(rs.take(n + 1).drop_last() =~= rs.take(n));
        lemma_unstored_none(rs, device_id, n + 1);
    } else {
        assert(rs.take(n) =~= rs);
    }
}

impl BepState {
    /// What is done to put the files of an index in the place of those that were there,
    /// after the latter were removed.
    pub fn replace_index(
        &mut self,
        folder: &str,
        device_id: &DeviceId,
        files: &Vec<FileInfo>,
    ) -> (r: Result<Vec<Statement>, StateError>)
        ensures
            match files_plan(
                crate::views(files@),
                folder@,
                device_id::text_of_id(device_id.id@),
                RemovalView::Keep,
                old(self)@.sequence,
            ) {
                Err(e) => r == Err::<Vec<Statement>, StateError>(e) && only_sequence_changed(
                    old(self)@,
                    final(self)@,
                ),
                Ok(plan) => r matches Ok(s) && crate::views(s@) == plan.statements.push(
                    statements::bare(Query::End),
                ) && final(self)@ == (BepStateView { sequence: plan.sequence, ..old(self)@ }),
            },
    {
        let (s, _) = self.replace_file_info(folder, device_id, files, &Removal::Keep)?;
        proof {
            let plan = files_plan(
                crate::views(files@),
                folder@,
                device_id::text_of_id(device_id.id@),
                RemovalView::Keep,
                old(self)@.sequence,
            )->Ok_0;
            assert(plan.statements.skip(0) =~= plan.statements);
        }
        Ok(s)
    }

    /// What is done to write files of a folder for a device, after a transaction was begun.
    pub fn insert_file_info(
        &mut self,
        folder: &str,
        device_id: &DeviceId,
        file_info: &Vec<FileInfo>,
    ) -> (r: Result<Vec<Statement>, StateError>)
        ensures
            match files_plan(
                crate::views(file_info@),
                folder@,
                device_id::text_of_id(device_id.id@),
                RemovalView::Keep,
                old(self)@.sequence,
            ) {
                Err(e) => r == Err::<Vec<Statement>, StateError>(e) && only_sequence_changed(
                    old(self)@,
                    final(self)@,
                ),
                Ok(plan) => r matches Ok(s) && crate::views(s@) == plan.statements.push(
                    statements::bare(Query::End),
                ) && final(self)@ == (BepStateView { sequence: plan.sequence, ..old(self)@ }),
            },
    {
        self.replace_index(folder, device_id, file_info)
    }

    /// What is done to write files in the place of those of the same names, which are
    /// removed; room was made for the first of them.
    pub fn rm_replace_file_info(
        &mut self,
        folder: &str,
        device_id: &DeviceId,
        file_info: &Vec<FileInfo>,
    ) -> (r: Result<Vec<Statement>, StateError>)
        ensures
            ({
                let files = crate::views(file_info@);
                let device = device_id::text_of_id(device_id.id@);
                match files_plan(
                    files,
                    folder@,
                    device,
                    RemovalView::Delete,
                    old(self)@.sequence,
                ) {
                    Err(e) => r == Err::<Vec<Statement>, StateError>(e) && only_sequence_changed(
                        old(self)@,
                        final(self)@,
                    ),
                    Ok(plan) => r matches Ok(s) && is_rest_of_plan(
                        crate::views(s@),
                        plan,
                        first_removal(files, folder@, device, RemovalView::Delete)->Ok_0,
                    ) && final(self)@ == (BepStateView { sequence: plan.sequence, ..old(self)@ }),
                }
            }),
    {
        let (s, _) = self.replace_file_info(folder, device_id, file_info, &Removal::Delete)?;
        Ok(s)
    }

    /// What is done to write the folders that a device shares.
    pub fn update_cluster_config(other: &ClusterConfig) -> (r: Result<Vec<Statement>, StateError>)
        ensures
            if folders_ok(other@.folders) {
                r matches Ok(s) && crate::views(s@) == seq![statements::bare(Query::Begin)]
                    + folders_statements(other@.folders) + seq![statements::bare(Query::End)]
            } else {
                r == Err::<Vec<Statement>, StateError>(StateError::BadDeviceId)
            },
    {
        let ghost fs = other@.folders;
        let ghost begin = statements::bare(Query::Begin);
        let mut out: Vec<Statement> = Vec::new();
        assert(crate::views(out@) =~= Seq::empty());
        statements::add_statement(&mut out, Statement::new(Query::Begin));
        let mut i: usize = 0;
        assert(crate::views(out@) =~= seq![begin] + folders_statements(fs.take(0)));
        while i < other.folders.len()
            invariant
                i <= other.folders@.len(),
                fs == crate::views(other.folders@),
                fs == other@.folders,
                crate::views(out@) == seq![begin] + folders_statements(fs.take(i as int)),
                forall|j: int| 0 <= j < i ==> device_ids_ok((#[trigger] fs[j]).devices),
            decreases other.folders@.len() - i,
        {
            proof {
                assert(fs[i as int] == other.folders@[i as int]@);
                assert(fs.take(i + 1).drop_last() =~= fs.take(i as int));
            }
            match push_folder(&mut out, &other.folders[i]) {
                Ok(()) => {},
                Err(e) => {
                    return Err(e);
                },
            }
            assert(crate::views(out@) =~= seq![begin] + folders_statements(fs.take(i + 1)));
            i += 1;
        }
        assert(fs.take(fs.len() as int) =~= fs);
        let ghost before = crate::views(out@);
        statements::add_statement(&mut out, Statement::new(Query::End));
        assert(crate::views(out@) =~= before + seq![statements::bare(Query::End)]);
        Ok(out)
    }

    pub fn load_request_id(&self) -> (r: i32)
        ensures
            r == self@.request_id,
    {
        self.request_id
    }

    /// Increments the last id by `val`; returns what it was before.
    pub fn fetch_add_request_id(&mut self, val: i32) -> (r: i32)
        requires
            i32::MIN <= old(self)@.request_id + val <= i32::MAX,
        ensures
            r == old(self)@.request_id,
            final(self)@ == (BepStateView {
                request_id: (old(self)@.request_id + val) as i32,
                ..old(self)@
            }),
    {
        let old_value: i32 = self.request_id;
        self.request_id = self.request_id + val;
        old_value
    }

    /// Remembers requests by their ids.
    pub fn insert_requests(&mut self, requests: &Vec<Request>)
        ensures
            final(self)@ == (BepStateView {
                requests: with_requests(old(self)@.requests, crate::views(requests@)),
                ..old(self)@
            }),
    {
        let ghost all = crate::views(requests@);
        let mut i: usize = 0;
        assert(all.take(0) =~= Seq::empty());
        while i < requests.len()
            invariant
                i <= requests@.len(),
                all == crate::views(requests@),
                self@ == (BepStateView {
                    requests: with_requests(old(self)@.requests, all.take(i as int)),
                    ..old(self)@
                }),
            decreases requests@.len() - i,
        {
            proof {
                assert(all.take(i + 1).drop_last() =~= all.take(i as int));
                assert(all.take(i + 1).last() == requests@[i as int]@);
            }
            let ghost before = self@.requests;
            let request = requests[i].clone();
            let _ = self.outgoing_requests.insert(request.id, request);
            assert(self@.requests =~= before.insert(request@.id, request@));
            i += 1;
        }
        assert(all.take(all.len() as int) =~= all);
    }

    /// The request with an id.
    pub fn get_request<'a>(&'a self, request_id: &i32) -> (r: Option<&'a Request>)
        ensures
            match r {
                Some(x) => self@.requests.dom().contains(*request_id) && x@
                    == self@.requests[*request_id],
                None => !self@.requests.dom().contains(*request_id),
            },
    {
        self.outgoing_requests.get(request_id)
    }

    /// Forgets the request with an id.
    pub fn remove_request(&mut self, request_id: &i32) -> (r: Option<Request>)
        ensures
            final(self)@ == (BepStateView {
                requests: old(self)@.requests.remove(*request_id),
                ..old(self)@
            }),
            match r {
                Some(x) => old(self)@.requests.dom().contains(*request_id) && x@ == old(
                    self,
                )@.requests[*request_id],
                None => !old(self)@.requests.dom().contains(*request_id),
            },
    {
        let r = self.outgoing_requests.remove(request_id);
        assert(self@.requests =~= old(self)@.requests.remove(*request_id));
        r
    }

    /// What is done once the block of a request is stored, before the blocks of the file
    /// are counted.
    pub fn block_stored(&self, request_id: &i32, device_id: &DeviceId) -> (r: Result<
        Vec<Statement>,
        StateError,
    >)
        ensures
            if self@.requests.dom().contains(*request_id) {
                r matches Ok(s) && crate::views(s@) == block_stored_statements(
                    self@.requests[*request_id],
                    device_id::text_of_id(device_id.id@),
                )
            } else {
                r == Err::<Vec<Statement>, StateError>(StateError::NoRequest)
            },
    {
        let request = match self.get_request(request_id) {
            Some(x) => x,
            None => {
                return Err(StateError::NoRequest);
            },
        };
        let ghost device = device_id::text_of_id(device_id.id@);
        let mut out: Vec<Statement> = Vec::new();
        assert(crate::views(out@) =~= Seq::empty());
        statements::add_statement(&mut out, Statement::new(Query::Begin));
        let mut s = Statement::new(Query::SetBlockStatus);
        s.add_int(StorageStatus::StoredLocally.to_number());
        s.add_text(request.name.as_str());
        s.add_text(request.folder.as_str());
        s.add_text(device_id.to_string().as_str());
        s.add_bytes(&request.hash);
        assert(s@ =~= block_stored_statements(request@, device)[1]);
        statements::add_statement(&mut out, s);
        assert(crate::views(out@) =~= block_stored_statements(request@, device));
        Ok(out)
    }

    /// Whether all blocks of the file of a request are stored, and what is done then,
    /// after the blocks were counted.
    pub fn update_block_storage_state(
        &self,
        request_id: &i32,
        device_id: &DeviceId,
        count: BlockCount,
    ) -> (r: Result<(Result<UploadStatus, StateError>, Vec<Statement>), StateError>)
        ensures
            if self@.requests.dom().contains(*request_id) {
                &&& r matches Ok((status, s))
                &&& status == upload_status(count)
                &&& crate::views(s@) == blocks_counted_statements(
                    self@.requests[*request_id],
                    device_id::text_of_id(device_id.id@),
                    status,
                )
            } else {
                r == Err::<(Result<UploadStatus, StateError>, Vec<Statement>), StateError>(
                    StateError::NoRequest,
                )
            },
    {
        let request = match self.get_request(request_id) {
            Some(x) => x,
            None => {
                return Err(StateError::NoRequest);
            },
        };
        let ghost device = device_id::text_of_id(device_id.id@);
        let status = block_upload_status(count);
        let mut out: Vec<Statement> = Vec::new();
        assert(crate::views(out@) =~= Seq::empty());
        match status {
            Ok(UploadStatus::AllBlocks) => {
                let s = make_location(
                    request.folder.as_str(),
                    device_id.to_string().as_str(),
                    request.name.as_str(),
                    "local",
                    request.name.as_str(),
                );
                statements::add_statement(&mut out, s);
            },
            _ => {},
        }
        statements::add_statement(&mut out, Statement::new(Query::End));
        assert(crate::views(out@) =~= blocks_counted_statements(request@, device, status));
        Ok((status, out))
    }

    /// The blocks that rows stand for.
    pub fn blocks_info(device_id: &DeviceId, file_blocks: &Vec<BlockRow>) -> (r: Result<
        Vec<BlockInfoExt>,
        BadRow,
    >)
        ensures
            match unstored_blocks_of(crate::views(file_blocks@), device_id.id@) {
                Some(bs) => r matches Ok(x) && crate::views(x@) == bs,
                None => r == Err::<Vec<BlockInfoExt>, BadRow>(BadRow),
            },
    {
        let ghost all = crate::views(file_blocks@);
        let mut out: Vec<BlockInfoExt> = Vec::new();
        let mut i: usize = 0;
        assert(crate::views(out@) =~= Seq::empty());
        while i < file_blocks.len()
            invariant
                i <= file_blocks@.len(),
                all == crate::views(file_blocks@),
                unstored_blocks_of(all.take(i as int), device_id.id@) == Some(crate::views(out@)),
            decreases file_blocks@.len() - i,
        {
            let row = &file_blocks[i];
            proof {
                assert(all.take(i + 1).drop_last() =~= all.take(i as int));
                assert(all.take(i + 1).last() == row@);
            }
            if row.bi_size < i32::MIN as i64 || row.bi_size > i32::MAX as i64 {
                proof {
                    lemma_unstored_none(all, device_id.id@, i + 1);
                }
                return Err(BadRow);
            }
            let block = BlockInfoExt {
                device_id: *device_id,
                folder: row.folder.clone(),
                name: row.name.clone(),
                hash: vstd::slice::slice_to_vec(row.hash.as_slice()),
                size: row.bi_size as i32,
                offset: row.offset,
            };
            proof {
                crate::lemma_views_push(out@, block);
            }
            out.push(block);
            i += 1;
        }
        assert(all.take(all.len() as int) =~= all);
        Ok(out)
    }

    /// What removes a file of a folder for a device.
    pub fn rm_file_info(folder: &str, device_id: &DeviceId, file_name: &str) -> (r: Statement)
        ensures
            r@ == delete_file_statement(
                FileKey {
                    folder: folder@,
                    device: device_id::text_of_id(device_id.id@),
                    name: file_name@,
                },
            ),
    {
        let mut s = Statement::new(Query::DeleteFile);
        s.add_text(folder);
        s.add_text(device_id.to_string().as_str());
        s.add_text(file_name);
        s
    }

    /// What is done to write where a file is kept, given storage backends and locations.
    pub fn update_file_locations(
        folder: &str,
        device_id: &DeviceId,
        file_name: &str,
        locations: &Vec<(String, String)>,
    ) -> (r: Vec<Statement>)
        ensures
            ({
                let key = FileKey {
                    folder: folder@,
                    device: device_id::text_of_id(device_id.id@),
                    name: file_name@,
                };
                crate::views(r@) == seq![statements::bare(Query::Begin)] + pair_views(
                    locations@,
                ).map_values(
                    |l: (Seq<char>, Seq<char>)| location_statement(key, l.0, l.1),
                ) + seq![statements::bare(Query::End)]
            }),
    {
        let device = device_id.to_string();
        let ghost key = FileKey { folder: folder@, device: device@, name: file_name@ };
        let ghost op = |l: (Seq<char>, Seq<char>)| location_statement(key, l.0, l.1);
        let ghost ls = pair_views(locations@);
        let ghost begin = statements::bare(Query::Begin);
        let mut out: Vec<Statement> = Vec::new();
        assert(crate::views(out@) =~= Seq::empty());
        statements::add_statement(&mut out, Statement::new(Query::Begin));
        let mut i: usize = 0;
        assert(crate::views(out@) =~= seq![begin] + ls.take(0).map_values(op));
        while i < locations.len()
            invariant
                i <= locations@.len(),
                ls == pair_views(locations@),
                key == (FileKey { folder: folder@, device: device@, name: file_name@ }),
                op == |l: (Seq<char>, Seq<char>)| location_statement(key, l.0, l.1),
                crate::views(out@) == seq![begin] + ls.take(i as int).map_values(op),
            decreases locations@.len() - i,
        {
            let s = make_location(
                folder,
                device.as_str(),
                file_name,
                locations[i].0.as_str(),
                locations[i].1.as_str(),
            );
            assert(ls[i as int] == (locations@[i as int].0@, locations@[i as int].1@));
            statements::add_statement(&mut out, s);
            assert(ls.take(i + 1).map_values(op) =~= ls.take(i as int).map_values(op).push(
                op(ls[i as int]),
            ));
            assert(crate::views(out@) =~= seq![begin] + ls.take(i + 1).map_values(op));
            i += 1;
        }
        assert(ls.take(ls.len() as int) =~= ls);
        let ghost before = crate::views(out@);
        statements::add_statement(&mut out, Statement::new(Query::End));
        assert(crate::views(out@) =~= before + seq![statements::bare(Query::End)]);
        out
    }

    /// What is done to forget that a file is kept on storage backends.
    pub fn remove_file_locations(
        folder: &str,
        device_id: &DeviceId,
        file_name: &str,
        storage_backends: &Vec<String>,
    ) -> (r: Vec<Statement>)
        ensures
            ({
                let key = FileKey {
                    folder: folder@,
                    device: device_id::text_of_id(device_id.id@),
                    name: file_name@,
                };
                crate::views(r@) == seq![statements::bare(Query::Begin)] + crate::views(
                    storage_backends@,
                ).map_values(|b: Seq<char>| remove_location_statement(key, b)) + seq![
                    statements::bare(Query::End),
                ]
            }),
    {
        let device = device_id.to_string();
        let ghost key = FileKey { folder: folder@, device: device@, name: file_name@ };
        let ghost op = |b: Seq<char>| remove_location_statement(key, b);
        let ghost bs = crate::views(storage_backends@);
        let ghost begin = statements::bare(Query::Begin);
        let mut out: Vec<Statement> = Vec::new();
        assert(crate::views(out@) =~= Seq::empty());
        statements::add_statement(&mut out, Statement::new(Query::Begin));
        let mut i: usize = 0;
        assert(crate::views(out@) =~= seq![begin] + bs.take(0).map_values(op));
        while i < storage_backends.len()
            invariant
                i <= storage_backends@.len(),
                bs == crate::views(storage_backends@),
                key == (FileKey { folder: folder@, device: device@, name: file_name@ }),
                op == |b: Seq<char>| remove_location_statement(key, b),
                crate::views(out@) == seq![begin] + bs.take(i as int).map_values(op),
            decreases storage_backends@.len() - i,
        {
            let mut s = Statement::new(Query::DeleteLocation);
            s.add_text(folder);
            s.add_text(device.as_str());
            s.add_text(file_name);
            s.add_text(storage_backends[i].as_str());
            assert(s@ =~= remove_location_statement(key, bs[i as int]));
            statements::add_statement(&mut out, s);
            assert(bs.take(i + 1).map_values(op) =~= bs.take(i as int).map_values(op).push(
                op(bs[i as int]),
            ));
            assert(crate::views(out@) =~= seq![begin] + bs.take(i + 1).map_values(op));
            i += 1;
        }
        assert(bs.take(bs.len() as int) =~= bs);
        let ghost before = crate::views(out@);
        statements::add_statement(&mut out, Statement::new(Query::End));
        assert(crate::views(out@) =~= before + seq![statements::bare(Query::End)]);
        out
    }
}

// ---------------------------------------------------------------------------
// What is written is read back

pub open spec fn as_text(v: ValueView) -> Seq<char> {
    match v {
        ValueView::Text(s) => s,
        _ => Seq::empty(),
    }
}

/// A number as the database keeps it; a truth value is kept as 0 or 1.
pub open spec fn as_int(v: ValueView) -> i64 {
    match v {
        ValueView::Int(n) => n,
        ValueView::Flag(b) => if b {
            1
        } else {
            0
        },
        _ => 0,
    }
}

pub open spec fn as_blob(v: ValueView) -> Seq<u8> {
    match v {
        ValueView::Bytes(b) => b,
        _ => Seq::empty(),
    }
}

/// The row that is in the database after a file was written.
pub open spec fn file_row(v: Seq<ValueView>) -> rows::FileRowView {
    rows::FileRowView {
        folder: as_text(v[0]),
        device: as_text(v[1]),
        name: as_text(v[2]),
        file_type: as_int(v[3]),
        size: as_int(v[4]),
        permissions: as_int(v[5]),
        modified_s: as_int(v[6]),
        modified_ns: as_int(v[7]),
        modified_by: as_blob(v[8]),
        deleted: as_int(v[9]),
        invalid: as_int(v[10]),
        no_permissions: as_int(v[11]),
        sequence: as_int(v[12]),
        block_size: as_int(v[13]),
        symlink_target: as_text(v[14]),
    }
}

/// The row that is in the database after a version was written.
pub open spec fn version_row(v: Seq<ValueView>) -> rows::VersionRowView {
    rows::VersionRowView { name: as_text(v[2]), id: as_blob(v[3]), value: as_int(v[4]) }
}

/// The row that is in the database after a block was written.
pub open spec fn block_row(v: Seq<ValueView>) -> BlockRowView {
    BlockRowView {
        name: as_text(v[0]),
        folder: as_text(v[1]),
        offset: as_int(v[3]),
        bi_size: as_int(v[4]),
        hash: as_blob(v[5]),
        weak_hash: Some(as_int(v[6])),
    }
}

/// The row that is in the database after a device was written.
pub open spec fn device_row(v: Seq<ValueView>) -> rows::DeviceRowView {
    rows::DeviceRowView {
        folder: as_text(v[0]),
        id: as_text(v[1]),
        name: as_text(v[2]),
        addresses: as_text(v[3]),
        cert_name: as_text(v[5]),
        max_sequence: as_int(v[6]),
        introducer: as_int(v[7]),
        index_id: as_blob(v[8]),
        skip_introduction_removals: as_int(v[9]),
        encryption_password_token: as_blob(v[10]),
    }
}

/// The rows after the versions of a file were written.
pub open spec fn version_rows(key: FileKey, cs: Seq<CounterView>) -> Seq<rows::VersionRowView> {
    cs.map_values(|c: CounterView| version_row(insert_version_statement(key, c).values))
}

/// The rows after the blocks of a file were written.
pub open spec fn block_rows(key: FileKey, bs: Seq<BlockInfoView>) -> Seq<BlockRowView> {
    bs.map_values(|b: BlockInfoView| block_row(insert_block_statement(key, b).values))
}

proof fn lemma_blocks_back(key: FileKey, bs: Seq<BlockInfoView>)
    ensures
        rows::blocks_of(block_rows(key, bs)) == Some(bs),
    decreases bs.len(),
{
    if bs.len() > 0 {
        let front = bs.drop_last();
        lemma_blocks_back(key, front);
        assert(block_rows(key, bs).drop_last() =~= block_rows(key, front));
        assert(block_rows(key, bs).last() == block_row(
            insert_block_statement(key, bs.last()).values,
        ));
        assert(front.push(bs.last()) =~= bs);
    } else {
        assert(bs =~= Seq::empty());
    }
}

proof fn lemma_counters_back(key: FileKey, cs: Seq<CounterView>)
    requires
        forall|i: int| 0 <= i < cs.len() ==> (#[trigger] cs[i]).value <= i64::MAX,
    ensures
        rows::counters_of(version_rows(key, cs)) == Some(cs),
    decreases cs.len(),
{
    if cs.len() > 0 {
        let front = cs.drop_last();
        lemma_counters_back(key, front);
        assert(cs[cs.len() - 1].value <= i64::MAX);
        statements::law_bytes_round_trip(cs.last().id);
        assert(version_rows(key, cs).drop_last() =~= version_rows(key, front));
        assert(version_rows(key, cs).last() == version_row(
            insert_version_statement(key, cs.last()).values,
        ));
        assert(front.push(cs.last()) =~= cs);
    } else {
        assert(cs =~= Seq::empty());
    }
}

/// A file that was written is read back from its rows, with the number of its change.
pub proof fn law_file_read_back(folder: Seq<char>, device: Seq<char>, f: FileInfoView, sequence: i64)
    requires
        file_error(f) is None,
    ensures
        ({
            let key = FileKey { folder, device, name: f.name };
            rows::whole_file_of(
                Some(file_row(insert_file_statement(key, f, sequence).values)),
                block_rows(key, f.blocks),
                version_rows(key, f.version->0.counters),
            ) == Ok::<Option<FileInfoView>, BadRow>(Some(FileInfoView { sequence, ..f }))
        }),
{
    let key = FileKey { folder, device, name: f.name };
    lemma_blocks_back(key, f.blocks);
    lemma_counters_back(key, f.version->0.counters);
    statements::law_bytes_round_trip(f.modified_by);
}

/// The rows of a file in an index: one for each of its blocks, or a single one where it has
/// none.
pub open spec fn index_rows(key: FileKey, f: FileInfoView, sequence: i64) -> Seq<rows::IndexRowView> {
    let file = file_row(insert_file_statement(key, f, sequence).values);
    if f.blocks.len() == 0 {
        seq![
            rows::IndexRowView { file, offset: None, bi_size: None, hash: None, weak_hash: None },
        ]
    } else {
        block_rows(key, f.blocks).map_values(
            |b: BlockRowView|
                rows::IndexRowView {
                    file,
                    offset: Some(b.offset),
                    bi_size: Some(b.bi_size),
                    hash: Some(b.hash),
                    weak_hash: b.weak_hash,
                },
        )
    }
}

/// The rows of the files of an index, where `sequence` is the number of the change before.
pub open spec fn all_index_rows(
    files: Seq<FileInfoView>,
    folder: Seq<char>,
    device: Seq<char>,
    sequence: i64,
) -> Seq<rows::IndexRowView>
    decreases files.len(),
{
    if files.len() == 0 {
        Seq::empty()
    } else {
        let f = files.last();
        all_index_rows(files.drop_last(), folder, device, sequence) + index_rows(
            FileKey { folder, device, name: f.name },
            f,
            (sequence + files.len()) as i64,
        )
    }
}

/// The rows of the versions of the files of an index.
pub open spec fn all_version_rows(files: Seq<FileInfoView>, folder: Seq<char>, device: Seq<char>) -> Seq<
    rows::VersionRowView,
>
    decreases files.len(),
{
    if files.len() == 0 {
        Seq::empty()
    } else {
        let f = files.last();
        all_version_rows(files.drop_last(), folder, device) + version_rows(
            FileKey { folder, device, name: f.name },
            f.version->0.counters,
        )
    }
}

/// A file without its version.
pub open spec fn unversioned(f: FileInfoView, sequence: i64) -> FileInfoView {
    FileInfoView { sequence, version: Some(VectorView { counters: Seq::empty() }), ..f }
}

/// The files by name, with the numbers of their changes; only the first `count` of them
/// have their versions.
pub open spec fn partly_read(files: Seq<FileInfoView>, sequence: i64, count: nat) -> Map<
    Seq<char>,
    FileInfoView,
>
    decreases files.len(),
{
    if files.len() == 0 {
        Map::empty()
    } else {
        let f = files.last();
        let n = (sequence + files.len()) as i64;
        partly_read(files.drop_last(), sequence, count).insert(
            f.name,
            if files.len() <= count {
                FileInfoView { sequence: n, ..f }
            } else {
                unversioned(f, n)
            },
        )
    }
}

proof fn lemma_partly_read(files: Seq<FileInfoView>, sequence: i64, count: nat)
    requires
        indices::names_distinct(files),
    ensures
        forall|i: int|
            0 <= i < files.len() ==> #[trigger] partly_read(files, sequence, count).dom().contains(
                files[i].name,
            ) && partly_read(files, sequence, count)[files[i].name] == if i < count {
                FileInfoView { sequence: (sequence + i + 1) as i64, ..files[i] }
            } else {
                unversioned(files[i], (sequence + i + 1) as i64)
            },
        forall|name: Seq<char>| #[trigger]
            partly_read(files, sequence, count).dom().contains(name) ==> exists|i: int|
                0 <= i < files.len() && (#[trigger] files[i]).name == name,
    decreases files.len(),
{
    if files.len() > 0 {
        let front = files.drop_last();
        let m = partly_read(files, sequence, count);
        assert(indices::names_distinct(front)) by {
            assert forall|i: int, j: int| 0 <= i < j < front.len() implies (
            #[trigger] front[i]).name != (#[trigger] front[j]).name by {
                assert(front[i] == files[i] && front[j] == files[j]);
            }
        }
        lemma_partly_read(front, sequence, count);
        assert forall|i: int| 0 <= i < files.len() implies #[trigger] m.dom().contains(
            files[i].name,
        ) && m[files[i].name] == if i < count {
            FileInfoView { sequence: (sequence + i + 1) as i64, ..files[i] }
        } else {
            unversioned(files[i], (sequence + i + 1) as i64)
        } by {
            if i < front.len() {
                assert(front[i] == files[i]);
                assert(partly_read(front, sequence, count).dom().contains(front[i].name));
                assert(files[i].name != files[files.len() - 1].name);
            }
        }
        assert forall|name: Seq<char>| #[trigger] m.dom().contains(name) implies exists|i: int|
            0 <= i < files.len() && (#[trigger] files[i]).name == name by {
            if name == files.last().name {
                assert(files[files.len() - 1].name == name);
            } else {
                assert(partly_read(front, sequence, count).dom().contains(name));
                let i = choose|i: int| 0 <= i < front.len() && (#[trigger] front[i]).name == name;
                assert(files[i].name == name);
            }
        }
    }
}

/// The rows of a file add the file to those that were read before.
proof fn lemma_index_rows(
    before: Seq<rows::IndexRowView>,
    files: Map<Seq<char>, FileInfoView>,
    key: FileKey,
    f: FileInfoView,
    sequence: i64,
    count: nat,
)
    requires
        rows::files_in(before) == Ok::<Map<Seq<char>, FileInfoView>, BadRow>(files),
        !files.dom().contains(f.name),
        key.name == f.name,
        0 < count <= index_rows(key, f, sequence).len(),
    ensures
        rows::files_in(before + index_rows(key, f, sequence).take(count as int)) == Ok::<
            Map<Seq<char>, FileInfoView>,
            BadRow,
        >(
            files.insert(
                f.name,
                FileInfoView {
                    blocks: if f.blocks.len() == 0 {
                        Seq::empty()
                    } else {
                        f.blocks.take(count as int)
                    },
                    ..unversioned(f, sequence)
                },
            ),
        ),
    decreases count,
{
    let all = index_rows(key, f, sequence);
    let row = all[count - 1];
    let now = before + all.take(count as int);
    let last = before + all.take(count - 1);
    statements::law_bytes_round_trip(f.modified_by);
    assert(now.drop_last() =~= last);
    assert(now.last() == row);
    let bare = FileInfoView { blocks: Seq::empty(), ..unversioned(f, sequence) };
    assert(rows::file_of(
        row.file,
        Some(VectorView { counters: Seq::empty() }),
        Seq::empty(),
    ) == Some(bare));
    if count == 1 {
        assert(last =~= before);
        if f.blocks.len() > 0 {
            assert(rows::block_in(row) == Ok::<Seq<BlockInfoView>, BadRow>(seq![f.blocks[0]]));
            assert(seq![f.blocks[0]] =~= f.blocks.take(1));
        }
    } else {
        lemma_index_rows(before, files, key, f, sequence, (count - 1) as nat);
        let so_far = FileInfoView { blocks: f.blocks.take(count - 1), ..unversioned(f, sequence) };
        let m = files.insert(f.name, so_far);
        let b = f.blocks[count - 1];
        assert(rows::block_in(row) == Ok::<Seq<BlockInfoView>, BadRow>(seq![b]));
        assert(so_far.blocks + seq![b] =~= f.blocks.take(count as int));
        let after = FileInfoView { blocks: f.blocks.take(count as int), ..so_far };
        assert(m.insert(f.name, after) =~= files.insert(f.name, after));
    }
}

/// The rows of the files of an index give the files without their versions.
proof fn lemma_all_index_rows(
    files: Seq<FileInfoView>,
    folder: Seq<char>,
    device: Seq<char>,
    sequence: i64,
)
    requires
        indices::names_distinct(files),
    ensures
        rows::files_in(all_index_rows(files, folder, device, sequence)) == Ok::<
            Map<Seq<char>, FileInfoView>,
            BadRow,
        >(partly_read(files, sequence, 0)),
    decreases files.len(),
{
    if files.len() > 0 {
        let front = files.drop_last();
        let f = files.last();
        let key = FileKey { folder, device, name: f.name };
        let n = (sequence + files.len()) as i64;
        assert(indices::names_distinct(front)) by {
            assert forall|i: int, j: int| 0 <= i < j < front.len() implies (
            #[trigger] front[i]).name != (#[trigger] front[j]).name by {
                assert(front[i] == files[i] && front[j] == files[j]);
            }
        }
        lemma_all_index_rows(front, folder, device, sequence);
        lemma_partly_read(front, sequence, 0);
        let before = all_index_rows(front, folder, device, sequence);
        let m = partly_read(front, sequence, 0);
        assert(!m.dom().contains(f.name)) by {
            if m.dom().contains(f.name) {
                let i = choose|i: int| 0 <= i < front.len() && (#[trigger] front[i]).name == f.name;
                assert(files[i].name != files[files.len() - 1].name);
            }
        }
        let all = index_rows(key, f, n);
        lemma_index_rows(before, m, key, f, n, all.len());
        assert(all.take(all.len() as int) =~= all);
        assert(f.blocks.take(f.blocks.len() as int) =~= f.blocks);
        if f.blocks.len() == 0 {
            assert(f.blocks =~= Seq::empty());
        } else {
            assert(all.len() == f.blocks.len());
        }
    }
}

/// The rows of the version of a file complete the file.
proof fn lemma_version_rows(
    files: Map<Seq<char>, FileInfoView>,
    before: Seq<rows::VersionRowView>,
    m: Map<Seq<char>, FileInfoView>,
    key: FileKey,
    cs: Seq<CounterView>,
)
    requires
        rows::versioned_files(files, before) == Ok::<Map<Seq<char>, FileInfoView>, BadRow>(m),
        m.dom().contains(key.name),
        m[key.name].version == Some(VectorView { counters: Seq::empty() }),
        forall|i: int| 0 <= i < cs.len() ==> (#[trigger] cs[i]).value <= i64::MAX,
    ensures
        rows::versioned_files(files, before + version_rows(key, cs)) == Ok::<
            Map<Seq<char>, FileInfoView>,
            BadRow,
        >(
            m.insert(
                key.name,
                FileInfoView { version: Some(VectorView { counters: cs }), ..m[key.name] },
            ),
        ),
    decreases cs.len(),
{
    let now = before + version_rows(key, cs);
    if cs.len() == 0 {
        assert(now =~= before);
        assert(cs =~= Seq::empty());
        assert(m.insert(key.name, m[key.name]) =~= m);
    } else {
        let front = cs.drop_last();
        assert forall|i: int| 0 <= i < front.len() implies (#[trigger] front[i]).value
            <= i64::MAX by {
            assert(front[i] == cs[i]);
        }
        lemma_version_rows(files, before, m, key, front);
        assert(cs[cs.len() - 1].value <= i64::MAX);
        statements::law_bytes_round_trip(cs.last().id);
        assert(now.drop_last() =~= before + version_rows(key, front));
        let row = version_row(insert_version_statement(key, cs.last()).values);
        assert(now.last() == row);
        assert(rows::counter_of(row) == Some(cs.last()));
        assert(front.push(cs.last()) =~= cs);
        let f = FileInfoView { version: Some(VectorView { counters: cs }), ..m[key.name] };
        let g = FileInfoView { version: Some(VectorView { counters: front }), ..m[key.name] };
        assert(m.insert(key.name, g).insert(key.name, f) =~= m.insert(key.name, f));
    }
}

proof fn lemma_all_version_rows(
    files: Seq<FileInfoView>,
    folder: Seq<char>,
    device: Seq<char>,
    sequence: i64,
    count: nat,
)
    requires
        indices::names_distinct(files),
        forall|i: int| 0 <= i < files.len() ==> file_error(#[trigger] files[i]) is None,
        count <= files.len(),
    ensures
        rows::versioned_files(
            partly_read(files, sequence, 0),
            all_version_rows(files.take(count as int), folder, device),
        ) == Ok::<Map<Seq<char>, FileInfoView>, BadRow>(partly_read(files, sequence, count)),
    decreases count,
{
    if count > 0 {
        let i = count - 1;
        let f = files[i];
        let key = FileKey { folder, device, name: f.name };
        let start = partly_read(files, sequence, 0);
        let before = partly_read(files, sequence, i as nat);
        let after = partly_read(files, sequence, count);
        lemma_all_version_rows(files, folder, device, sequence, i as nat);
        lemma_partly_read(files, sequence, i as nat);
        lemma_partly_read(files, sequence, count);
        assert(files.take(count as int).drop_last() =~= files.take(i));
        assert(files.take(count as int).last() == f);
        assert(file_error(files[i]) is None);
        assert(before.dom().contains(files[i].name));
        assert(after.dom().contains(files[i].name));
        let cs = f.version->0.counters;
        lemma_version_rows(
            start,
            all_version_rows(files.take(i), folder, device),
            before,
            key,
            cs,
        );
        let full = FileInfoView { version: Some(VectorView { counters: cs }), ..before[f.name] };
        assert(full == after[f.name]);
        assert(before.insert(f.name, full) =~= after) by {
            assert forall|name: Seq<char>| before.dom().contains(name) == after.dom().contains(
                name,
            ) by {
                if before.dom().contains(name) {
                    let j = choose|j: int| 0 <= j < files.len() && (#[trigger] files[j]).name == name;
                    assert(after.dom().contains(files[j].name));
                }
                if after.dom().contains(name) {
                    let j = choose|j: int| 0 <= j < files.len() && (#[trigger] files[j]).name == name;
                    assert(before.dom().contains(files[j].name));
                }
            }
            assert forall|name: Seq<char>|
                after.dom().contains(name) implies before.insert(f.name, full)[name]
                == after[name] by {
                let j = choose|j: int| 0 <= j < files.len() && (#[trigger] files[j]).name == name;
                assert(after.dom().contains(files[j].name));
                assert(before.dom().contains(files[j].name));
                if j < i {
                    assert(files[j].name != files[i].name);
                } else if j > i {
                    assert(files[i].name != files[j].name);
                }
            }
        }
    } else {
        assert(files.take(0) =~= Seq::empty());
    }
}

/// An index that was written is read back from its rows: each file under its name, with
/// the number of its change.
pub proof fn law_index_read_back(
    files: Seq<FileInfoView>,
    folder: Seq<char>,
    device: Seq<char>,
    sequence: i64,
)
    requires
        indices::names_distinct(files),
        forall|i: int| 0 <= i < files.len() ==> file_error(#[trigger] files[i]) is None,
    ensures
        ({
            let read = rows::index_of_rows(
                all_index_rows(files, folder, device, sequence),
                all_version_rows(files, folder, device),
            );
            &&& read is Ok
            &&& forall|name: Seq<char>| #[trigger]
                (read->Ok_0).dom().contains(name) <==> exists|i: int|
                    0 <= i < files.len() && (#[trigger] files[i]).name == name
            &&& forall|i: int|
                0 <= i < files.len() ==> (read->Ok_0)[(#[trigger] files[i]).name]
                    == (FileInfoView { sequence: (sequence + i + 1) as i64, ..files[i] })
        }),
{
    lemma_all_index_rows(files, folder, device, sequence);
    lemma_all_version_rows(files, folder, device, sequence, files.len());
    lemma_partly_read(files, sequence, files.len());
    assert(files.take(files.len() as int) =~= files);
    let m = partly_read(files, sequence, files.len());
    assert forall|name: Seq<char>|
        (exists|i: int| 0 <= i < files.len() && (#[trigger] files[i]).name == name) implies m.dom().contains(
        name,
    ) by {
        let i = choose|i: int| 0 <= i < files.len() && (#[trigger] files[i]).name == name;
        assert(m.dom().contains(files[i].name));
    }
    assert forall|i: int| 0 <= i < files.len() implies m[(#[trigger] files[i]).name] == (
    FileInfoView { sequence: (sequence + i + 1) as i64, ..files[i] }) by {
        assert(m.dom().contains(files[i].name));
    }
}

/// The row that is in the database after a folder was written, and the number it has there.
pub open spec fn folder_row(v: Seq<ValueView>, row_id: Option<i64>) -> rows::FolderRowView {
    rows::FolderRowView {
        row_id,
        id: as_text(v[0]),
        label: as_text(v[1]),
        read_only: as_int(v[2]),
        ignore_permissions: as_int(v[3]),
        ignore_delete: as_int(v[4]),
        disable_temp_indexes: as_int(v[5]),
        paused: as_int(v[6]),
    }
}

/// A folder that was written is read back from its row.
pub proof fn law_folder_read_back(f: FolderView, row_id: Option<i64>)
    ensures
        rows::folder_of(folder_row(insert_folder_statement(f).values, row_id), f.devices) == f,
{
}

/// A device that was written is read back from its row, but for its compression; its
/// addresses must not hold a comma, and it must have some.
pub proof fn law_device_read_back(folder: Seq<char>, d: DeviceView)
    requires
        d.id.len() == device_id::DEVICE_ID_LEN,
        d.addresses.len() > 0,
        forall|i: int| 0 <= i < d.addresses.len() ==> !(#[trigger] d.addresses[i]).contains(','),
    ensures
        rows::device_of(device_row(insert_device_statement(folder, d).values)) == Some(
            DeviceView { compression: rows::NEVER_COMPRESS, ..d },
        ),
{
    device_id::law_text_round_trip(d.id);
    rows::law_addresses_round_trip(d.addresses);
    statements::law_bytes_round_trip(d.index_id);
}

/// Every file that is written gets a number of its own: they count up from the last one.
pub proof fn law_sequence_counts_up(
    files: Seq<FileInfoView>,
    folder: Seq<char>,
    device: Seq<char>,
    removal: RemovalView,
    sequence: i64,
)
    requires
        files_plan(files, folder, device, removal, Some(sequence)) is Ok,
    ensures
        (files_plan(files, folder, device, removal, Some(sequence))->Ok_0).sequence == Some(
            (sequence + written_count(files, removal)) as i64,
        ),
        sequence + written_count(files, removal) <= i64::MAX,
    decreases files.len(),
{
    if files.len() > 0 {
        law_sequence_counts_up(files.drop_last(), folder, device, removal, sequence);
    }
}

/// How many files are written.
pub open spec fn written_count(files: Seq<FileInfoView>, removal: RemovalView) -> nat
    decreases files.len(),
{
    if files.len() == 0 {
        0
    } else {
        written_count(files.drop_last(), removal) + if is_skipped(removal, files.last()) {
            0nat
        } else {
            1nat
        }
    }
}

/// A request is found by its id after it was put in, unless a later one has the same id.
pub proof fn law_request_remembered(m: Map<i32, RequestView>, rs: Seq<RequestView>, i: int)
    requires
        0 <= i < rs.len(),
        forall|j: int| i < j < rs.len() ==> (#[trigger] rs[j]).id != rs[i].id,
    ensures
        with_requests(m, rs).dom().contains(rs[i].id),
        with_requests(m, rs)[rs[i].id] == rs[i],
    decreases rs.len(),
{
    if i < rs.len() - 1 {
        assert(rs[rs.len() - 1].id != rs[i].id);
        let front = rs.drop_last();
        assert forall|j: int| i < j < front.len() implies (#[trigger] front[j]).id
            != front[i].id by {
            assert(rs[j].id != rs[i].id);
        }
        law_request_remembered(m, front, i);
    }
}

// ---------------------------------------------------------------------------
// What is read

/// Every folder with every device, folder by folder.
pub open spec fn index_keys(folders: Seq<Seq<char>>, devices: Seq<Seq<u8>>) -> Seq<
    (Seq<char>, Seq<u8>),
> {
    Seq::new(
        folders.len() * devices.len(),
        |k: int| (folders[k / devices.len() as int], devices[k % devices.len() as int]),
    )
}

pub open spec fn key_views(s: Seq<(String, DeviceId)>) -> Seq<(Seq<char>, Seq<u8>)> {
    s.map_values(|p: (String, DeviceId)| (p.0@, p.1.id@))
}

pub open spec fn id_views(s: Seq<DeviceId>) -> Seq<Seq<u8>> {
    s.map_values(|d: DeviceId| d.id@)
}

impl BepState {
    /// The index of a folder that rows stand for.
    pub fn index(
        folder: &str,
        file_blocks: &Vec<rows::IndexRow>,
        file_versions: &Vec<rows::VersionRow>,
    ) -> (r: Result<Index, BadRow>)
        ensures
            match rows::index_of_rows(crate::views(file_blocks@), crate::views(file_versions@)) {
                Ok(files) => r matches Ok(x) && indices::lists(
                    x,
                    indices::FilesView { folder: folder@, files },
                ),
                Err(e) => r == Err::<Index, BadRow>(e),
            },
    {
        rows::read_index(folder, file_blocks, file_versions)
    }

    /// The file that a row, the rows of its blocks and those of its versions stand for.
    pub fn file(
        file: &Option<rows::FileRow>,
        file_blocks: &Vec<BlockRow>,
        file_versions: &Vec<rows::VersionRow>,
    ) -> (r: Result<Option<FileInfo>, BadRow>)
        ensures
            match rows::whole_file_of(
                wire::view_option(*file),
                crate::views(file_blocks@),
                crate::views(file_versions@),
            ) {
                Ok(f) => r matches Ok(x) && wire::view_option(x) == f,
                Err(e) => r == Err::<Option<FileInfo>, BadRow>(e),
            },
    {
        rows::read_file(file, file_blocks, file_versions)
    }

    /// The files that rows stand for. No file occurs twice.
    pub fn files_fuse(files: &Vec<rows::FuseRow>) -> (r: Result<Vec<GrizolFileInfo>, BadRow>)
        ensures
            match rows::fuse_files_of(crate::views(files@)) {
                Ok(fs) => r matches Ok(x) && crate::views(x@) == fs,
                Err(e) => r == Err::<Vec<GrizolFileInfo>, BadRow>(e),
            },
    {
        rows::read_fuse_files(files)
    }

    /// The top level folders that rows stand for.
    pub fn top_folders_fuse(folders: &Vec<rows::FolderRow>) -> (r: Vec<GrizolFolder>)
        ensures
            crate::views(r@) == rows::top_folders_of(crate::views(folders@)),
    {
        rows::read_top_folders(folders)
    }

    /// The cluster that rows stand for.
    pub fn cluster_config(devices: &Vec<rows::DeviceRow>, folders: &Vec<rows::FolderRow>) -> (r:
        Result<ClusterConfig, BadRow>)
        ensures
            if rows::devices_ok(crate::views(devices@)) {
                r matches Ok(x) && x@ == rows::cluster_of(
                    crate::views(devices@),
                    crate::views(folders@),
                )
            } else {
                r == Err::<ClusterConfig, BadRow>(BadRow)
            },
    {
        rows::read_cluster_config(devices, folders)
    }

    /// Which indices to read: every folder with every device, folder by folder.
    pub fn indices(folders: &Vec<String>, device_ids: &Vec<DeviceId>) -> (r: Vec<
        (String, DeviceId),
    >)
        ensures
            key_views(r@) == index_keys(crate::views(folders@), id_views(device_ids@)),
    {
        let ghost fs = crate::views(folders@);
        let ghost ds = id_views(device_ids@);
        let ghost n = ds.len() as int;
        let mut out: Vec<(String, DeviceId)> = Vec::new();
        let mut i: usize = 0;
        while i < folders.len()
            invariant
                i <= folders@.len(),
                fs == crate::views(folders@),
                ds == id_views(device_ids@),
                n == ds.len(),
                out@.len() == i * n,
                forall|k: int|
                    0 <= k < i * n ==> (#[trigger] out@[k]).0@ == fs[k / n] && out@[k].1.id@
                        == ds[k % n],
            decreases folders@.len() - i,
        {
            let mut j: usize = 0;
            while j < device_ids.len()
                invariant
                    i < folders@.len(),
                    j <= device_ids@.len(),
                    fs == crate::views(folders@),
                    ds == id_views(device_ids@),
                    n == ds.len(),
                    out@.len() == i * n + j,
                    forall|k: int|
                        0 <= k < i * n + j ==> (#[trigger] out@[k]).0@ == fs[k / n]
                            && out@[k].1.id@ == ds[k % n],
                decreases device_ids@.len() - j,
            {
                proof {
                    vstd::arithmetic::div_mod::lemma_fundamental_div_mod_converse(
                        i * n + j,
                        n,
                        i as int,
                        j as int,
                    );
                }
                out.push((folders[i].clone(), device_ids[j]));
                j += 1;
            }
            assert((i + 1) * n == i * n + n) by (nonlinear_arith);
            i += 1;
        }
        proof {
            let want = index_keys(fs, ds);
            assert(want.len() == fs.len() * n);
            assert(key_views(out@) =~= want);
        }
        out
    }
}

} // verus!
