//! What the rows of the database stand for.

use vstd::prelude::*;
use crate::device_id;
use crate::device_id::DeviceId;
use crate::indices;
use crate::statements;
use crate::syncthing::{
    BlockInfo, BlockInfoView, ClusterConfig, ClusterConfigView, Counter, CounterView, Device,
    DeviceView, FileInfo, FileInfoView, Folder, FolderView, Index, Vector, VectorView,
};
use crate::types::{GrizolFileInfo, GrizolFileInfoView, GrizolFolder, GrizolFolderView};
use crate::wire;

verus! {

/// The rows of the database hold something that nothing stands for.
#[derive(Debug, Clone, Copy, PartialEq, Eq, Structural)]
pub struct BadRow;

/// A row of the files.
#[derive(Debug)]
pub struct FileRow {
    pub folder: String,
    pub device: String,
    pub name: String,
    pub file_type: i64,
    pub size: i64,
    pub permissions: i64,
    pub modified_s: i64,
    pub modified_ns: i64,
    pub modified_by: Vec<u8>,
    pub deleted: i64,
    pub invalid: i64,
    pub no_permissions: i64,
    pub sequence: i64,
    pub block_size: i64,
    pub symlink_target: String,
}

#[verifier::ext_equal]
pub struct FileRowView {
    pub folder: Seq<char>,
    pub device: Seq<char>,
    pub name: Seq<char>,
    pub file_type: i64,
    pub size: i64,
    pub permissions: i64,
    pub modified_s: i64,
    pub modified_ns: i64,
    pub modified_by: Seq<u8>,
    pub deleted: i64,
    pub invalid: i64,
    pub no_permissions: i64,
    pub sequence: i64,
    pub block_size: i64,
    pub symlink_target: Seq<char>,
}

impl View for FileRow {
    type V = FileRowView;

    open spec fn view(&self) -> FileRowView {
        FileRowView {
            folder: self.folder@,
            device: self.device@,
            name: self.name@,
            file_type: self.file_type,
            size: self.size,
            permissions: self.permissions,
            modified_s: self.modified_s,
            modified_ns: self.modified_ns,
            modified_by: self.modified_by@,
            deleted: self.deleted,
            invalid: self.invalid,
            no_permissions: self.no_permissions,
            sequence: self.sequence,
            block_size: self.block_size,
            symlink_target: self.symlink_target@,
        }
    }
}

/// A row of the blocks of files.
#[derive(Debug)]
pub struct BlockRow {
    pub name: String,
    pub folder: String,
    pub offset: i64,
    pub bi_size: i64,
    pub hash: Vec<u8>,
    pub weak_hash: Option<i64>,
}

#[verifier::ext_equal]
pub struct BlockRowView {
    pub name: Seq<char>,
    pub folder: Seq<char>,
    pub offset: i64,
    pub bi_size: i64,
    pub hash: Seq<u8>,
    pub weak_hash: Option<i64>,
}

impl View for BlockRow {
    type V = BlockRowView;

    open spec fn view(&self) -> BlockRowView {
        BlockRowView {
            name: self.name@,
            folder: self.folder@,
            offset: self.offset,
            bi_size: self.bi_size,
            hash: self.hash@,
            weak_hash: self.weak_hash,
        }
    }
}

/// A row of the files, with one of their blocks where they have any.
#[derive(Debug)]
pub struct IndexRow {
    pub file: FileRow,
    pub offset: Option<i64>,
    pub bi_size: Option<i64>,
    pub hash: Option<Vec<u8>>,
    pub weak_hash: Option<i64>,
}

#[verifier::ext_equal]
pub struct IndexRowView {
    pub file: FileRowView,
    pub offset: Option<i64>,
    pub bi_size: Option<i64>,
    pub hash: Option<Seq<u8>>,
    pub weak_hash: Option<i64>,
}

impl View for IndexRow {
    type V = IndexRowView;

    open spec fn view(&self) -> IndexRowView {
        IndexRowView {
            file: self.file@,
            offset: self.offset,
            bi_size: self.bi_size,
            hash: wire::view_option(self.hash),
            weak_hash: self.weak_hash,
        }
    }
}

/// A row of the versions of files.
#[derive(Debug)]
pub struct VersionRow {
    pub name: String,
    pub id: Vec<u8>,
    pub value: i64,
}

#[verifier::ext_equal]
pub struct VersionRowView {
    pub name: Seq<char>,
    pub id: Seq<u8>,
    pub value: i64,
}

impl View for VersionRow {
    type V = VersionRowView;

    open spec fn view(&self) -> VersionRowView {
        VersionRowView {
            name: self.name@,
            id: self.id@,
            value: self.value,
        }
    }
}

/// A row of the folders.
#[derive(Debug)]
pub struct FolderRow {
    pub row_id: Option<i64>,
    pub id: String,
    pub label: String,
    pub read_only: i64,
    pub ignore_permissions: i64,
    pub ignore_delete: i64,
    pub disable_temp_indexes: i64,
    pub paused: i64,
}

#[verifier::ext_equal]
pub struct FolderRowView {
    pub row_id: Option<i64>,
    pub id: Seq<char>,
    pub label: Seq<char>,
    pub read_only: i64,
    pub ignore_permissions: i64,
    pub ignore_delete: i64,
    pub disable_temp_indexes: i64,
    pub paused: i64,
}

impl View for FolderRow {
    type V = FolderRowView;

    open spec fn view(&self) -> FolderRowView {
        FolderRowView {
            row_id: self.row_id,
            id: self.id@,
            label: self.label@,
            read_only: self.read_only,
            ignore_permissions: self.ignore_permissions,
            ignore_delete: self.ignore_delete,
            disable_temp_indexes: self.disable_temp_indexes,
            paused: self.paused,
        }
    }
}

/// A row of the devices that share folders.
#[derive(Debug)]
pub struct DeviceRow {
    pub folder: String,
    pub id: String,
    pub name: String,
    pub addresses: String,
    pub cert_name: String,
    pub max_sequence: i64,
    pub introducer: i64,
    pub index_id: Vec<u8>,
    pub skip_introduction_removals: i64,
    pub encryption_password_token: Vec<u8>,
}

#[verifier::ext_equal]
pub struct DeviceRowView {
    pub folder: Seq<char>,
    pub id: Seq<char>,
    pub name: Seq<char>,
    pub addresses: Seq<char>,
    pub cert_name: Seq<char>,
    pub max_sequence: i64,
    pub introducer: i64,
    pub index_id: Seq<u8>,
    pub skip_introduction_removals: i64,
    pub encryption_password_token: Seq<u8>,
}

impl View for DeviceRow {
    type V = DeviceRowView;

    open spec fn view(&self) -> DeviceRowView {
        DeviceRowView {
            folder: self.folder@,
            id: self.id@,
            name: self.name@,
            addresses: self.addresses@,
            cert_name: self.cert_name@,
            max_sequence: self.max_sequence,
            introducer: self.introducer,
            index_id: self.index_id@,
            skip_introduction_removals: self.skip_introduction_removals,
            encryption_password_token: self.encryption_password_token@,
        }
    }
}

/// A row of the files, with its number.
#[derive(Debug)]
pub struct FuseRow {
    pub file: FileRow,
    pub row_id: i64,
}

#[verifier::ext_equal]
pub struct FuseRowView {
    pub file: FileRowView,
    pub row_id: i64,
}

impl View for FuseRow {
    type V = FuseRowView;

    open spec fn view(&self) -> FuseRowView {
        FuseRowView {
            file: self.file@,
            row_id: self.row_id,
        }
    }
}

// ---------------------------------------------------------------------------
// Parts of rows

fn to_i32(x: i64) -> (r: Result<i32, BadRow>)
    ensures
        match r {
            Ok(n) => n == x,
            Err(_) => !(i32::MIN <= x <= i32::MAX),
        },
{
    if i32::MIN as i64 <= x && x <= i32::MAX as i64 {
        Ok(x as i32)
    } else {
        Err(BadRow)
    }
}

fn to_u32(x: i64) -> (r: Result<u32, BadRow>)
    ensures
        match r {
            Ok(n) => n == x,
            Err(_) => !(0 <= x <= u32::MAX),
        },
{
    if 0 <= x && x <= u32::MAX as i64 {
        Ok(x as u32)
    } else {
        Err(BadRow)
    }
}

/// The weak hash of a block: zero where there is none.
pub open spec fn weak_hash_of(x: Option<i64>) -> i64 {
    match x {
        Some(n) => n,
        None => 0,
    }
}

/// The block that the columns stand for.
pub open spec fn block_of(
    offset: i64,
    size: i64,
    hash: Seq<u8>,
    weak_hash: Option<i64>,
) -> Option<BlockInfoView> {
    if i32::MIN <= size <= i32::MAX && 0 <= weak_hash_of(weak_hash) <= u32::MAX {
        Some(
            BlockInfoView {
                offset,
                size: size as i32,
                hash,
                weak_hash: weak_hash_of(weak_hash) as u32,
            },
        )
    } else {
        None
    }
}

fn make_block(offset: i64, size: i64, hash: &Vec<u8>, weak_hash: Option<i64>) -> (r: Result<
    BlockInfo,
    BadRow,
>)
    ensures
        match block_of(offset, size, hash@, weak_hash) {
            Some(b) => r matches Ok(x) && x@ == b,
            None => r is Err,
        },
{
    let size: i32 = to_i32(size)?;
    let weak_hash: u32 = to_u32(
        match weak_hash {
            Some(n) => n,
            None => 0,
        },
    )?;
    Ok(
        BlockInfo {
            offset,
            size,
            hash: vstd::slice::slice_to_vec(hash.as_slice()),
            weak_hash,
        },
    )
}

/// The counter that a row stands for.
pub open spec fn counter_of(row: VersionRowView) -> Option<CounterView> {
    match statements::number_of_bytes(row.id) {
        Some(id) => if row.value >= 0 {
            Some(CounterView { id, value: row.value as u64 })
        } else {
            None
        },
        None => None,
    }
}

fn make_counter(row: &VersionRow) -> (r: Result<Counter, BadRow>)
    ensures
        match counter_of(row@) {
            Some(c) => r matches Ok(x) && x@ == c,
            None => r is Err,
        },
{
    match statements::from_be_bytes(&row.id) {
        Some(id) => if row.value >= 0 {
            Ok(Counter { id, value: row.value as u64 })
        } else {
            Err(BadRow)
        },
        None => Err(BadRow),
    }
}

/// The file that a row stands for, with the given version and blocks.
pub open spec fn file_of(
    row: FileRowView,
    version: Option<VectorView>,
    blocks: Seq<BlockInfoView>,
) -> Option<FileInfoView> {
    match statements::number_of_bytes(row.modified_by) {
        None => None,
        Some(modified_by) => if i32::MIN <= row.file_type <= i32::MAX && 0 <= row.permissions
            <= u32::MAX && i32::MIN <= row.modified_ns <= i32::MAX && i32::MIN <= row.block_size
            <= i32::MAX {
            Some(
                FileInfoView {
                    name: row.name,
                    file_type: row.file_type as i32,
                    size: row.size,
                    permissions: row.permissions as u32,
                    modified_s: row.modified_s,
                    deleted: row.deleted == 1,
                    invalid: row.invalid == 1,
                    no_permissions: row.no_permissions == 1,
                    version,
                    sequence: row.sequence,
                    modified_ns: row.modified_ns as i32,
                    modified_by,
                    block_size: row.block_size as i32,
                    blocks,
                    symlink_target: row.symlink_target,
                },
            )
        } else {
            None
        },
    }
}

fn make_file(row: &FileRow, version: Option<Vector>, blocks: Vec<BlockInfo>) -> (r: Result<
    FileInfo,
    BadRow,
>)
    ensures
        match file_of(row@, wire::view_option(version), crate::views(blocks@)) {
            Some(f) => r matches Ok(x) && x@ == f,
            None => r is Err,
        },
{
    let modified_by: u64 = match statements::from_be_bytes(&row.modified_by) {
        Some(n) => n,
        None => {
            return Err(BadRow);
        },
    };
    let file_type: i32 = to_i32(row.file_type)?;
    let permissions: u32 = to_u32(row.permissions)?;
    let modified_ns: i32 = to_i32(row.modified_ns)?;
    let block_size: i32 = to_i32(row.block_size)?;
    Ok(
        FileInfo {
            name: row.name.clone(),
            file_type,
            size: row.size,
            permissions,
            modified_s: row.modified_s,
            deleted: row.deleted == 1,
            invalid: row.invalid == 1,
            no_permissions: row.no_permissions == 1,
            version,
            sequence: row.sequence,
            modified_ns,
            modified_by,
            block_size,
            blocks,
            symlink_target: row.symlink_target.clone(),
        },
    )
}

// ---------------------------------------------------------------------------
// A single file

/// The blocks that rows stand for, in order.
pub open spec fn blocks_of(rows: Seq<BlockRowView>) -> Option<Seq<BlockInfoView>>
    decreases rows.len(),
{
    if rows.len() == 0 {
        Some(Seq::empty())
    } else {
        match blocks_of(rows.drop_last()) {
            None => None,
            Some(before) => {
                let row = rows.last();
                match block_of(row.offset, row.bi_size, row.hash, row.weak_hash) {
                    None => None,
                    Some(b) => Some(before.push(b)),
                }
            },
        }
    }
}

/// The counters that rows stand for, in order.
pub open spec fn counters_of(rows: Seq<VersionRowView>) -> Option<Seq<CounterView>>
    decreases rows.len(),
{
    if rows.len() == 0 {
        Some(Seq::empty())
    } else {
        match counters_of(rows.drop_last()) {
            None => None,
            Some(before) => match counter_of(rows.last()) {
                None => None,
                Some(c) => Some(before.push(c)),
            },
        }
    }
}

proof fn lemma_blocks_of_none(rows: Seq<BlockRowView>, n: int)
    requires
        0 <= n <= rows.len(),
        blocks_of(rows.take(n)) is None,
    ensures
        blocks_of(rows) is None,
    decreases rows.len() - n,
{
    if n < rows.len() {
        assert(rows.take(n + 1).drop_last() =~= rows.take(n));
        lemma_blocks_of_none(rows, n + 1);
    } else {
        assert(rows.take(n) =~= rows);
    }
}

proof fn lemma_counters_of_none(rows: Seq<VersionRowView>, n: int)
    requires
        0 <= n <= rows.len(),
        counters_of(rows.take(n)) is None,
    ensures
        counters_of(rows) is None,
    decreases rows.len() - n,
{
    if n < rows.len() {
        assert(rows.take(n + 1).drop_last() =~= rows.take(n));
        lemma_counters_of_none(rows, n + 1);
    } else {
        assert(rows.take(n) =~= rows);
    }
}

fn make_blocks(rows: &Vec<BlockRow>) -> (r: Result<Vec<BlockInfo>, BadRow>)
    ensures
        match blocks_of(crate::views(rows@)) {
            Some(bs) => r matches Ok(x) && crate::views(x@) == bs,
            None => r is Err,
        },
{
    let ghost all = crate::views(rows@);
    let mut blocks: Vec<BlockInfo> = Vec::new();
    let mut i: usize = 0;
    assert(crate::views(blocks@) =~= Seq::empty());
    while i < rows.len()
        invariant
            i <= rows@.len(),
            all == crate::views(rows@),
            blocks_of(all.take(i as int)) == Some(crate::views(blocks@)),
        decreases rows@.len() - i,
    {
        let row = &rows[i];
        proof {
            assert(all.take(i + 1).drop_last() =~= all.take(i as int));
            assert(all.take(i + 1).last() == row@);
        }
        match make_block(row.offset, row.bi_size, &row.hash, row.weak_hash) {
            Ok(b) => {
                proof {
                    crate::lemma_views_push(blocks@, b);
                }
                blocks.push(b);
            },
            Err(e) => {
                proof {
                    lemma_blocks_of_none(all, i + 1);
                }
                return Err(e);
            },
        }
        i += 1;
    }
    assert(all.take(all.len() as int) =~= all);
    Ok(blocks)
}

fn make_counters(rows: &Vec<VersionRow>) -> (r: Result<Vec<Counter>, BadRow>)
    ensures
        match counters_of(crate::views(rows@)) {
            Some(cs) => r matches Ok(x) && crate::views(x@) == cs,
            None => r is Err,
        },
{
    let ghost all = crate::views(rows@);
    let mut counters: Vec<Counter> = Vec::new();
    let mut i: usize = 0;
    assert(crate::views(counters@) =~= Seq::empty());
    while i < rows.len()
        invariant
            i <= rows@.len(),
            all == crate::views(rows@),
            counters_of(all.take(i as int)) == Some(crate::views(counters@)),
        decreases rows@.len() - i,
    {
        let row = &rows[i];
        proof {
            assert(all.take(i + 1).drop_last() =~= all.take(i as int));
            assert(all.take(i + 1).last() == row@);
        }
        match make_counter(row) {
            Ok(c) => {
                proof {
                    crate::lemma_views_push(counters@, c);
                }
                counters.push(c);
            },
            Err(e) => {
                proof {
                    lemma_counters_of_none(all, i + 1);
                }
                return Err(e);
            },
        }
        i += 1;
    }
    assert(all.take(all.len() as int) =~= all);
    Ok(counters)
}

/// The file that a row, the rows of its blocks and those of its versions stand for.
pub open spec fn whole_file_of(
    file: Option<FileRowView>,
    blocks: Seq<BlockRowView>,
    versions: Seq<VersionRowView>,
) -> Result<Option<FileInfoView>, BadRow> {
    match (blocks_of(blocks), counters_of(versions)) {
        (Some(bs), Some(counters)) => match file {
            None => Ok(None),
            Some(row) => match file_of(row, Some(VectorView { counters }), bs) {
                Some(f) => Ok(Some(f)),
                None => Err(BadRow),
            },
        },
        _ => Err(BadRow),
    }
}

/// The file that a row, the rows of its blocks and those of its versions stand for.
pub fn read_file(row: &Option<FileRow>, blocks: &Vec<BlockRow>, versions: &Vec<VersionRow>) -> (r:
    Result<Option<FileInfo>, BadRow>)
    ensures
        match whole_file_of(
            wire::view_option(*row),
            crate::views(blocks@),
            crate::views(versions@),
        ) {
            Ok(f) => r matches Ok(x) && wire::view_option(x) == f,
            Err(e) => r == Err::<Option<FileInfo>, BadRow>(e),
        },
{
    let blocks = make_blocks(blocks)?;
    let counters = make_counters(versions)?;
    match row {
        None => Ok(None),
        Some(row) => Ok(Some(make_file(row, Some(Vector { counters }), blocks)?)),
    }
}

// ---------------------------------------------------------------------------
// An index

/// The block in a row of an index, if there is one.
pub open spec fn block_in(row: IndexRowView) -> Result<Seq<BlockInfoView>, BadRow> {
    match row.offset {
        None => Ok(Seq::empty()),
        Some(offset) => if row.bi_size is Some && row.hash is Some {
            match block_of(offset, row.bi_size->0, row.hash->0, row.weak_hash) {
                Some(b) => Ok(seq![b]),
                None => Err(BadRow),
            }
        } else {
            Err(BadRow)
        },
    }
}

/// The files after one more row: a new file, or one more block of a file.
pub open spec fn with_row(files: Map<Seq<char>, FileInfoView>, row: IndexRowView) -> Result<
    Map<Seq<char>, FileInfoView>,
    BadRow,
> {
    let name = row.file.name;
    if files.dom().contains(name) {
        match block_in(row) {
            Ok(b) => Ok(
                files.insert(
                    name,
                    FileInfoView { blocks: files[name].blocks + b, ..files[name] },
                ),
            ),
            Err(e) => Err(e),
        }
    } else {
        match (file_of(row.file, Some(VectorView { counters: Seq::empty() }), Seq::empty()), block_in(row)) {
            (Some(f), Ok(b)) => Ok(files.insert(name, FileInfoView { blocks: b, ..f })),
            _ => Err(BadRow),
        }
    }
}

/// The files that rows stand for, without their versions.
pub open spec fn files_in(rows: Seq<IndexRowView>) -> Result<Map<Seq<char>, FileInfoView>, BadRow>
    decreases rows.len(),
{
    if rows.len() == 0 {
        Ok(Map::empty())
    } else {
        match files_in(rows.drop_last()) {
            Err(e) => Err(e),
            Ok(files) => with_row(files, rows.last()),
        }
    }
}

/// The counters of a file.
pub open spec fn counters_in(f: FileInfoView) -> Seq<CounterView> {
    match f.version {
        Some(v) => v.counters,
        None => Seq::empty(),
    }
}

/// The files after one more counter; one of a file that is not there is left out.
pub open spec fn with_version(files: Map<Seq<char>, FileInfoView>, row: VersionRowView) -> Result<
    Map<Seq<char>, FileInfoView>,
    BadRow,
> {
    if !files.dom().contains(row.name) {
        Ok(files)
    } else {
        match counter_of(row) {
            None => Err(BadRow),
            Some(c) => {
                let f = files[row.name];
                Ok(
                    files.insert(
                        row.name,
                        FileInfoView {
                            version: Some(VectorView { counters: counters_in(f).push(c) }),
                            ..f
                        },
                    ),
                )
            },
        }
    }
}

/// The files with the versions that rows stand for.
pub open spec fn versioned_files(
    files: Map<Seq<char>, FileInfoView>,
    versions: Seq<VersionRowView>,
) -> Result<Map<Seq<char>, FileInfoView>, BadRow>
    decreases versions.len(),
{
    if versions.len() == 0 {
        Ok(files)
    } else {
        match versioned_files(files, versions.drop_last()) {
            Err(e) => Err(e),
            Ok(before) => with_version(before, versions.last()),
        }
    }
}

/// The files of an index, by name, that rows stand for.
pub open spec fn index_of_rows(rows: Seq<IndexRowView>, versions: Seq<VersionRowView>) -> Result<
    Map<Seq<char>, FileInfoView>,
    BadRow,
> {
    match files_in(rows) {
        Err(e) => Err(e),
        Ok(files) => versioned_files(files, versions),
    }
}

proof fn lemma_files_in_err(rows: Seq<IndexRowView>, n: int)
    requires
        0 <= n <= rows.len(),
        files_in(rows.take(n)) is Err,
    ensures
        files_in(rows) is Err,
    decreases rows.len() - n,
{
    if n < rows.len() {
        assert(rows.take(n + 1).drop_last() =~= rows.take(n));
        lemma_files_in_err(rows, n + 1);
    } else {
        assert(rows.take(n) =~= rows);
    }
}

proof fn lemma_versioned_err(
    files: Map<Seq<char>, FileInfoView>,
    versions: Seq<VersionRowView>,
    n: int,
)
    requires
        0 <= n <= versions.len(),
        versioned_files(files, versions.take(n)) is Err,
    ensures
        versioned_files(files, versions) is Err,
    decreases versions.len() - n,
{
    if n < versions.len() {
        assert(versions.take(n + 1).drop_last() =~= versions.take(n));
        lemma_versioned_err(files, versions, n + 1);
    } else {
        assert(versions.take(n) =~= versions);
    }
}

/// Where the file with a name is in a list in which names occur once.
fn position(files: &Vec<FileInfo>, name: &String) -> (r: Option<usize>)
    requires
        indices::names_distinct(crate::views(files@)),
    ensures
        match r {
            Some(i) => i < files@.len() && files@[i as int]@.name == name@ && indices::by_name(
                crate::views(files@),
            ).dom().contains(name@) && indices::by_name(crate::views(files@))[name@]
                == files@[i as int]@,
            None => !indices::by_name(crate::views(files@)).dom().contains(name@),
        },
{
    let ghost vs = crate::views(files@);
    proof {
        indices::lemma_by_name(vs);
    }
    let mut i: usize = 0;
    while i < files.len()
        invariant
            i <= files@.len(),
            vs == crate::views(files@),
            forall|j: int| 0 <= j < i ==> (#[trigger] vs[j]).name != name@,
            forall|j: int|
                0 <= j < vs.len() ==> indices::by_name(vs).dom().contains((#[trigger] vs[j]).name)
                    && indices::by_name(vs)[vs[j].name] == vs[j],
        decreases files@.len() - i,
    {
        if files[i].name == *name {
            assert(vs[i as int] == files@[i as int]@);
            return Some(i);
        }
        assert(vs[i as int].name != name@);
        i += 1;
    }
    proof {
        if indices::by_name(vs).dom().contains(name@) {
            assert(vs.contains(indices::by_name(vs)[name@]));
            let j = choose|j: int| 0 <= j < vs.len() && vs[j] == indices::by_name(vs)[name@];
            indices::lemma_by_name_named(vs, name@);
            assert(vs[j].name == name@);
        }
    }
    None
}

/// Changing a file in a list changes it in the map by name.
proof fn lemma_update_file(vs: Seq<FileInfoView>, i: int, f: FileInfoView)
    requires
        indices::names_distinct(vs),
        0 <= i < vs.len(),
        f.name == vs[i].name,
    ensures
        indices::names_distinct(vs.update(i, f)),
        indices::by_name(vs.update(i, f)) == indices::by_name(vs).insert(f.name, f),
{
    let ws = vs.update(i, f);
    assert forall|a: int, b: int| 0 <= a < b < ws.len() implies (#[trigger] ws[a]).name != (
    #[trigger] ws[b]).name by {
        assert(ws[a].name == vs[a].name);
        assert(ws[b].name == vs[b].name);
    }
    indices::lemma_by_name(vs);
    indices::lemma_by_name(ws);
    let m = indices::by_name(vs).insert(f.name, f);
    assert forall|name: Seq<char>| indices::by_name(ws).dom().contains(name)
        == m.dom().contains(name) by {
        if indices::by_name(ws).dom().contains(name) {
            indices::lemma_by_name_named(ws, name);
            let j = choose|j: int| 0 <= j < ws.len() && ws[j] == indices::by_name(ws)[name];
            assert(indices::by_name(vs).dom().contains(vs[j].name));
            assert(ws[j].name == vs[j].name);
        }
        if m.dom().contains(name) && name != f.name {
            indices::lemma_by_name_named(vs, name);
            let j = choose|j: int| 0 <= j < vs.len() && vs[j] == indices::by_name(vs)[name];
            assert(ws[j].name == vs[j].name);
            assert(indices::by_name(ws).dom().contains(ws[j].name));
        }
        if name == f.name {
            assert(indices::by_name(ws).dom().contains(ws[i].name));
        }
    }
    assert forall|name: Seq<char>| indices::by_name(ws).dom().contains(
        name,
    ) implies indices::by_name(ws)[name] == m[name] by {
        indices::lemma_by_name_named(ws, name);
        let j = choose|j: int| 0 <= j < ws.len() && ws[j] == indices::by_name(ws)[name];
        if j == i {
            assert(ws[i] == f);
        } else {
            assert(ws[j] == vs[j]);
            assert(indices::by_name(vs)[vs[j].name] == vs[j]);
            assert(vs[j].name != f.name) by {
                if j < i {
                    assert(vs[j].name != vs[i].name);
                } else {
                    assert(vs[i].name != vs[j].name);
                }
            }
        }
    }
    assert(indices::by_name(ws) =~= m);
}

/// A new file at the end of a list is a new one in the map by name.
proof fn lemma_push_file(vs: Seq<FileInfoView>, f: FileInfoView)
    requires
        indices::names_distinct(vs),
        !indices::by_name(vs).dom().contains(f.name),
    ensures
        indices::names_distinct(vs.push(f)),
        indices::by_name(vs.push(f)) == indices::by_name(vs).insert(f.name, f),
{
    let ws = vs.push(f);
    indices::lemma_by_name(vs);
    assert(ws.drop_last() =~= vs);
    assert forall|a: int, b: int| 0 <= a < b < ws.len() implies (#[trigger] ws[a]).name != (
    #[trigger] ws[b]).name by {
        assert(ws[a] == vs[a]);
        assert(indices::by_name(vs).dom().contains(vs[a].name));
        if b < vs.len() {
            assert(ws[b] == vs[b]);
        }
    }
}

fn read_block(row: &IndexRow) -> (r: Result<Option<BlockInfo>, BadRow>)
    ensures
        match block_in(row@) {
            Ok(bs) => match r {
                Ok(Some(b)) => bs == seq![b@],
                Ok(None) => bs == Seq::<BlockInfoView>::empty(),
                Err(_) => false,
            },
            Err(e) => r == Err::<Option<BlockInfo>, BadRow>(e),
        },
{
    match row.offset {
        None => Ok(None),
        Some(offset) => match (row.bi_size, &row.hash) {
            (Some(size), Some(hash)) => Ok(Some(make_block(offset, size, hash, row.weak_hash)?)),
            _ => Err(BadRow),
        },
    }
}

/// The index of a folder that rows stand for.
pub fn read_index(folder: &str, rows: &Vec<IndexRow>, versions: &Vec<VersionRow>) -> (r: Result<
    Index,
    BadRow,
>)
    ensures
        match index_of_rows(crate::views(rows@), crate::views(versions@)) {
            Ok(files) => r matches Ok(x) && indices::lists(
                x,
                indices::FilesView { folder: folder@, files },
            ),
            Err(e) => r == Err::<Index, BadRow>(e),
        },
{
    let files = read_index_files(rows)?;
    let files = read_versions(files, versions)?;
    Ok(Index { folder: folder.to_owned(), files })
}

fn read_index_files(rows: &Vec<IndexRow>) -> (r: Result<Vec<FileInfo>, BadRow>)
    ensures
        match files_in(crate::views(rows@)) {
            Ok(files) => r matches Ok(x) && indices::names_distinct(crate::views(x@))
                && indices::by_name(crate::views(x@)) == files,
            Err(e) => r == Err::<Vec<FileInfo>, BadRow>(e),
        },
{
    let ghost all = crate::views(rows@);
    let mut files: Vec<FileInfo> = Vec::new();
    let mut i: usize = 0;
    assert(crate::views(files@) =~= Seq::empty());
    while i < rows.len()
        invariant
            i <= rows@.len(),
            all == crate::views(rows@),
            indices::names_distinct(crate::views(files@)),
            files_in(all.take(i as int)) == Ok::<Map<Seq<char>, FileInfoView>, BadRow>(
                indices::by_name(crate::views(files@)),
            ),
        decreases rows@.len() - i,
    {
        let row = &rows[i];
        let ghost before = crate::views(files@);
        proof {
            assert(all.take(i + 1).drop_last() =~= all.take(i as int));
            assert(all.take(i + 1).last() == row@);
        }
        let block = match read_block(row) {
            Ok(b) => b,
            Err(e) => {
                proof {
                    lemma_files_in_err(all, i + 1);
                }
                return Err(e);
            },
        };
        match position(&files, &row.file.name) {
            Some(at) => {
                let ghost f = files@[at as int]@;
                if let Some(b) = block {
                    let mut file = files[at].clone();
                    proof {
                        crate::lemma_views_push(file.blocks@, b);
                    }
                    file.blocks.push(b);
                    proof {
                        assert(f.blocks + seq![b@] =~= f.blocks.push(b@));
                        lemma_update_file(before, at as int, file@);
                    }
                    files.set(at, file);
                    assert(crate::views(files@) =~= before.update(at as int, file@));
                } else {
                    proof {
                        assert(f.blocks + Seq::empty() =~= f.blocks);
                        assert(indices::by_name(before).insert(f.name, f)
                            =~= indices::by_name(before));
                    }
                }
            },
            None => {
                let counters: Vec<Counter> = Vec::new();
                let mut blocks: Vec<BlockInfo> = Vec::new();
                assert(crate::views(counters@) =~= Seq::empty());
                assert(crate::views(blocks@) =~= Seq::empty());
                let mut file = match make_file(&row.file, Some(Vector { counters }), blocks) {
                    Ok(f) => f,
                    Err(e) => {
                        proof {
                            lemma_files_in_err(all, i + 1);
                        }
                        return Err(e);
                    },
                };
                if let Some(b) = block {
                    proof {
                        crate::lemma_views_push(file.blocks@, b);
                    }
                    file.blocks.push(b);
                    assert(file@.blocks =~= seq![b@]);
                }
                proof {
                    lemma_push_file(before, file@);
                    crate::lemma_views_push(files@, file);
                }
                files.push(file);
            },
        }
        i += 1;
    }
    assert(all.take(all.len() as int) =~= all);
    Ok(files)
}

fn read_versions(given: Vec<FileInfo>, versions: &Vec<VersionRow>) -> (r: Result<
    Vec<FileInfo>,
    BadRow,
>)
    requires
        indices::names_distinct(crate::views(given@)),
    ensures
        match versioned_files(indices::by_name(crate::views(given@)), crate::views(versions@)) {
            Ok(m) => r matches Ok(x) && indices::names_distinct(crate::views(x@))
                && indices::by_name(crate::views(x@)) == m,
            Err(e) => r == Err::<Vec<FileInfo>, BadRow>(e),
        },
{
    let ghost all = crate::views(versions@);
    let ghost start = indices::by_name(crate::views(given@));
    let mut files: Vec<FileInfo> = given;
    let mut i: usize = 0;
    while i < versions.len()
        invariant
            i <= versions@.len(),
            all == crate::views(versions@),
            start == indices::by_name(crate::views(given@)),
            indices::names_distinct(crate::views(files@)),
            versioned_files(start, all.take(i as int)) == Ok::<Map<Seq<char>, FileInfoView>, BadRow>(
                indices::by_name(crate::views(files@)),
            ),
        decreases versions@.len() - i,
    {
        let row = &versions[i];
        let ghost before = crate::views(files@);
        proof {
            assert(all.take(i + 1).drop_last() =~= all.take(i as int));
            assert(all.take(i + 1).last() == row@);
        }
        if let Some(at) = position(&files, &row.name) {
            let counter = match make_counter(row) {
                Ok(c) => c,
                Err(e) => {
                    proof {
                        lemma_versioned_err(start, all, i + 1);
                    }
                    return Err(e);
                },
            };
            let mut file = files[at].clone();
            let mut counters = match file.version.take() {
                Some(v) => v.counters,
                None => Vec::new(),
            };
            proof {
                assert(crate::views(counters@) =~= counters_in(before[at as int]));
                crate::lemma_views_push(counters@, counter);
            }
            counters.push(counter);
            file.version = Some(Vector { counters });
            proof {
                lemma_update_file(before, at as int, file@);
            }
            files.set(at, file);
            assert(crate::views(files@) =~= before.update(at as int, file@));
        }
        i += 1;
    }
    assert(all.take(all.len() as int) =~= all);
    Ok(files)
}

// ---------------------------------------------------------------------------
// Files and folders for the file system

/// The rows are of the same file.
pub open spec fn same_file(a: FuseRowView, b: FuseRowView) -> bool {
    a.file.folder == b.file.folder && a.file.device == b.file.device && a.file.name == b.file.name
}

/// The file that a row stands for; where it is kept is not told.
pub open spec fn fuse_file_of(row: FuseRowView) -> Option<GrizolFileInfoView> {
    match file_of(row.file, None, Seq::empty()) {
        Some(file_info) => Some(
            GrizolFileInfoView {
                file_info,
                id: row.row_id,
                file_locations: Seq::empty(),
                folder: row.file.folder,
            },
        ),
        None => None,
    }
}

/// Some row is of the same file as `row`.
pub open spec fn has_file(rows: Seq<FuseRowView>, row: FuseRowView) -> bool {
    exists|j: int| 0 <= j < rows.len() && same_file(#[trigger] rows[j], row)
}

/// The files that rows stand for, each by the first of its rows.
pub open spec fn fuse_files_of(rows: Seq<FuseRowView>) -> Result<Seq<GrizolFileInfoView>, BadRow>
    decreases rows.len(),
{
    if rows.len() == 0 {
        Ok(Seq::empty())
    } else {
        match fuse_files_of(rows.drop_last()) {
            Err(e) => Err(e),
            Ok(before) => match fuse_file_of(rows.last()) {
                None => Err(BadRow),
                Some(f) => if has_file(rows.drop_last(), rows.last()) {
                    Ok(before)
                } else {
                    Ok(before.push(f))
                },
            },
        }
    }
}

proof fn lemma_fuse_files_err(rows: Seq<FuseRowView>, n: int)
    requires
        0 <= n <= rows.len(),
        fuse_files_of(rows.take(n)) is Err,
    ensures
        fuse_files_of(rows) is Err,
    decreases rows.len() - n,
{
    if n < rows.len() {
        assert(rows.take(n + 1).drop_last() =~= rows.take(n));
        lemma_fuse_files_err(rows, n + 1);
    } else {
        assert(rows.take(n) =~= rows);
    }
}

fn seen_before(rows: &Vec<FuseRow>, i: usize) -> (r: bool)
    requires
        i < rows@.len(),
    ensures
        r == has_file(crate::views(rows@).take(i as int), crate::views(rows@)[i as int]),
        r <==> exists|j: int|
            0 <= j < i && (#[trigger] rows@[j]).file.folder@ == rows@[i as int].file.folder@
                && rows@[j].file.device@ == rows@[i as int].file.device@ && rows@[j].file.name@
                == rows@[i as int].file.name@,
{
    let ghost all = crate::views(rows@);
    let mut j: usize = 0;
    while j < i
        invariant
            j <= i < rows@.len(),
            all == crate::views(rows@),
            forall|k: int| 0 <= k < j ==> !same_file(#[trigger] all.take(i as int)[k], all[i as int]),
            forall|k: int|
                0 <= k < j ==> !((#[trigger] rows@[k]).file.folder@ == rows@[i as int].file.folder@
                    && rows@[k].file.device@ == rows@[i as int].file.device@ && rows@[k].file.name@
                    == rows@[i as int].file.name@),
        decreases i - j,
    {
        let a = &rows[j].file;
        let b = &rows[i].file;
        if a.folder == b.folder && a.device == b.device && a.name == b.name {
            assert(same_file(all.take(i as int)[j as int], all[i as int]));
            assert(rows@[j as int].file.folder@ == rows@[i as int].file.folder@);
            return true;
        }
        j += 1;
    }
    false
}

/// The files that rows stand for, each by the first of its rows.
pub fn read_fuse_files(rows: &Vec<FuseRow>) -> (r: Result<Vec<GrizolFileInfo>, BadRow>)
    ensures
        match fuse_files_of(crate::views(rows@)) {
            Ok(files) => r matches Ok(x) && crate::views(x@) == files,
            Err(e) => r == Err::<Vec<GrizolFileInfo>, BadRow>(e),
        },
        r matches Ok(x) ==> exists|at: Seq<int>|
            crate::laws::reading::are_shown_at(crate::views(x@), crate::views(rows@), at),
{
    let ghost all = crate::views(rows@);
    proof {
        crate::laws::reading::law_every_file_shown_once(all);
    }
    let mut files: Vec<GrizolFileInfo> = Vec::new();
    let mut i: usize = 0;
    assert(crate::views(files@) =~= Seq::empty());
    while i < rows.len()
        invariant
            i <= rows@.len(),
            all == crate::views(rows@),
            fuse_files_of(all.take(i as int)) == Ok::<Seq<GrizolFileInfoView>, BadRow>(
                crate::views(files@),
            ),
        decreases rows@.len() - i,
    {
        let row = &rows[i];
        proof {
            assert(all.take(i + 1).drop_last() =~= all.take(i as int));
            assert(all.take(i + 1).last() == row@);
        }
        let blocks: Vec<BlockInfo> = Vec::new();
        assert(crate::views(blocks@) =~= Seq::empty());
        match make_file(&row.file, None, blocks) {
            Err(e) => {
                proof {
                    lemma_fuse_files_err(all, i + 1);
                }
                return Err(e);
            },
            Ok(file_info) => {
                let g = GrizolFileInfo {
                    file_info,
                    id: row.row_id,
                    file_locations: Vec::new(),
                    folder: row.file.folder.clone(),
                };
                assert(crate::views(g.file_locations@) =~= Seq::empty());
                assert(fuse_file_of(row@) == Some(g@));
                if !seen_before(rows, i) {
                    proof {
                        crate::lemma_views_push(files@, g);
                    }
                    files.push(g);
                }
            },
        }
        i += 1;
    }
    assert(all.take(all.len() as int) =~= all);
    Ok(files)
}

/// The folder that a row stands for, shared with the given devices.
pub open spec fn folder_of(row: FolderRowView, devices: Seq<DeviceView>) -> FolderView {
    FolderView {
        id: row.id,
        label: row.label,
        read_only: row.read_only == 1,
        ignore_permissions: row.ignore_permissions == 1,
        ignore_delete: row.ignore_delete == 1,
        disable_temp_indexes: row.disable_temp_indexes == 1,
        paused: row.paused == 1,
        devices,
    }
}

fn make_folder(row: &FolderRow, devices: Vec<Device>) -> (r: Folder)
    ensures
        r@ == folder_of(row@, crate::views(devices@)),
{
    Folder {
        id: row.id.clone(),
        label: row.label.clone(),
        read_only: row.read_only == 1,
        ignore_permissions: row.ignore_permissions == 1,
        ignore_delete: row.ignore_delete == 1,
        disable_temp_indexes: row.disable_temp_indexes == 1,
        paused: row.paused == 1,
        devices,
    }
}

/// The folders that rows with a number stand for, in order.
pub open spec fn top_folders_of(rows: Seq<FolderRowView>) -> Seq<GrizolFolderView>
    decreases rows.len(),
{
    if rows.len() == 0 {
        Seq::empty()
    } else {
        let before = top_folders_of(rows.drop_last());
        match rows.last().row_id {
            Some(id) => before.push(
                GrizolFolderView { folder: folder_of(rows.last(), Seq::empty()), id },
            ),
            None => before,
        }
    }
}

/// The folders that rows with a number stand for, in order.
pub fn read_top_folders(rows: &Vec<FolderRow>) -> (r: Vec<GrizolFolder>)
    ensures
        crate::views(r@) == top_folders_of(crate::views(rows@)),
{
    let ghost all = crate::views(rows@);
    let mut folders: Vec<GrizolFolder> = Vec::new();
    let mut i: usize = 0;
    assert(crate::views(folders@) =~= Seq::empty());
    while i < rows.len()
        invariant
            i <= rows@.len(),
            all == crate::views(rows@),
            crate::views(folders@) == top_folders_of(all.take(i as int)),
        decreases rows@.len() - i,
    {
        let row = &rows[i];
        proof {
            assert(all.take(i + 1).drop_last() =~= all.take(i as int));
            assert(all.take(i + 1).last() == row@);
        }
        if let Some(id) = row.row_id {
            let devices: Vec<Device> = Vec::new();
            assert(crate::views(devices@) =~= Seq::empty());
            let folder = GrizolFolder { folder: make_folder(row, devices), id };
            proof {
                crate::lemma_views_push(folders@, folder);
            }
            folders.push(folder);
        }
        i += 1;
    }
    assert(all.take(all.len() as int) =~= all);
    folders
}

// ---------------------------------------------------------------------------
// The cluster

/// The number of the compression that a device is said to use: none.
pub const NEVER_COMPRESS: i32 = 1;

/// Where the part of a text before the first comma ends.
pub open spec fn comma_at(s: Seq<char>) -> nat
    decreases s.len(),
{
    if s.len() == 0 || s[0] == ',' {
        0
    } else {
        1 + comma_at(s.skip(1))
    }
}

/// The parts of a text between commas.
pub open spec fn comma_parts(s: Seq<char>) -> Seq<Seq<char>>
    decreases s.len(),
{
    let n = comma_at(s) as int;
    if n < s.len() {
        seq![s.take(n)] + comma_parts(s.skip(n + 1))
    } else {
        seq![s]
    }
}

/// The texts, one after the other, with commas between them.
pub open spec fn comma_joined(parts: Seq<Seq<char>>) -> Seq<char>
    decreases parts.len(),
{
    if parts.len() == 0 {
        Seq::empty()
    } else if parts.len() == 1 {
        parts[0]
    } else {
        comma_joined(parts.drop_last()) + seq![','] + parts.last()
    }
}

fn split_commas(s: &str) -> (r: Vec<String>)
    ensures
        crate::views(r@) == comma_parts(s@),
{
    let chars = crate::text::chars_of(s);
    let n: usize = chars.len();
    let mut parts: Vec<String> = Vec::new();
    let mut start: usize = 0;
    assert(chars@.skip(0) =~= chars@);
    assert(crate::views(parts@) =~= Seq::empty());
    assert(crate::views(parts@) + comma_parts(s@) =~= comma_parts(s@));
    loop
        invariant
            start <= n,
            n == chars@.len(),
            comma_parts(s@) == crate::views(parts@) + comma_parts(chars@.skip(start as int)),
        decreases n - start,
    {
        let ghost rest = chars@.skip(start as int);
        let mut end: usize = start;
        while end < n && chars[end] != ','
            invariant
                start <= end <= n,
                n == chars@.len(),
                rest == chars@.skip(start as int),
                comma_at(rest) == end - start + comma_at(chars@.skip(end as int)),
            ensures
                comma_at(rest) == end - start,
            decreases n - end,
        {
            assert(chars@.skip(end as int).skip(1) =~= chars@.skip(end + 1));
            end += 1;
        }
        let part = crate::text::string_of(
            vstd::slice::slice_to_vec(
                vstd::slice::slice_subrange(chars.as_slice(), start, end),
            ),
        );
        let ghost before = crate::views(parts@);
        proof {
            assert(part@ =~= rest.take(end - start));
            crate::lemma_views_push(parts@, part);
        }
        parts.push(part);
        if end == n {
            proof {
                assert(rest.take(rest.len() as int) =~= rest);
                assert(before + seq![rest] =~= before.push(rest));
            }
            return parts;
        }
        proof {
            let more = comma_parts(chars@.skip(end + 1));
            assert(rest.skip(end - start + 1) =~= chars@.skip(end + 1));
            assert(before + (seq![part@] + more) =~= before.push(part@) + more);
        }
        start = end + 1;
    }
}

/// The texts, one after the other, with commas between them.
pub fn join_commas(parts: &Vec<String>) -> (r: String)
    ensures
        r@ == comma_joined(crate::views(parts@)),
{
    let ghost all = crate::views(parts@);
    let mut out = String::new();
    let mut i: usize = 0;
    assert(out@ =~= Seq::empty());
    while i < parts.len()
        invariant
            i <= parts@.len(),
            all == crate::views(parts@),
            out@ == comma_joined(all.take(i as int)),
        decreases parts@.len() - i,
    {
        proof {
            assert(all.take(i + 1).drop_last() =~= all.take(i as int));
            assert(all.take(i + 1).last() == parts@[i as int]@);
            reveal_strlit(",");
            assert(","@ =~= seq![',']);
        }
        let ghost before = out@;
        if i > 0 {
            out.append(",");
        } else {
            assert(before =~= Seq::empty());
        }
        out.append(parts[i].as_str());
        assert(out@ =~= comma_joined(all.take(i + 1)));
        i += 1;
    }
    assert(all.take(all.len() as int) =~= all);
    out
}

/// The device that a row stands for.
pub open spec fn device_of(row: DeviceRowView) -> Option<DeviceView> {
    match (device_id::id_of_text(row.id), statements::number_of_bytes(row.index_id)) {
        (Ok(id), Some(index_id)) => Some(
            DeviceView {
                id,
                name: row.name,
                addresses: comma_parts(row.addresses),
                compression: NEVER_COMPRESS,
                cert_name: row.cert_name,
                max_sequence: row.max_sequence,
                introducer: row.introducer == 1,
                index_id,
                skip_introduction_removals: row.skip_introduction_removals == 1,
                encryption_password_token: row.encryption_password_token,
            },
        ),
        _ => None,
    }
}

fn make_device(row: &DeviceRow) -> (r: Result<Device, BadRow>)
    ensures
        match device_of(row@) {
            Some(d) => r matches Ok(x) && x@ == d,
            None => r is Err,
        },
{
    let index_id: u64 = match statements::from_be_bytes(&row.index_id) {
        Some(n) => n,
        None => {
            return Err(BadRow);
        },
    };
    match DeviceId::try_from_text(row.id.as_str()) {
        Ok(id) => Ok(
            Device {
                id: id.to_bytes(),
                name: row.name.clone(),
                addresses: split_commas(row.addresses.as_str()),
                compression: NEVER_COMPRESS,
                cert_name: row.cert_name.clone(),
                max_sequence: row.max_sequence,
                introducer: row.introducer == 1,
                index_id,
                skip_introduction_removals: row.skip_introduction_removals == 1,
                encryption_password_token: vstd::slice::slice_to_vec(
                    row.encryption_password_token.as_slice(),
                ),
            },
        ),
        Err(_) => Err(BadRow),
    }
}

/// Every row stands for a device.
pub open spec fn devices_ok(rows: Seq<DeviceRowView>) -> bool {
    forall|i: int| 0 <= i < rows.len() ==> device_of(#[trigger] rows[i]) is Some
}

/// The devices that share a folder, in the order of the rows.
pub open spec fn devices_in(rows: Seq<DeviceRowView>, folder: Seq<char>) -> Seq<DeviceView>
    decreases rows.len(),
{
    if rows.len() == 0 {
        Seq::empty()
    } else {
        let before = devices_in(rows.drop_last(), folder);
        if rows.last().folder == folder {
            before.push(device_of(rows.last())->0)
        } else {
            before
        }
    }
}

/// The cluster that rows stand for.
pub open spec fn cluster_of(devices: Seq<DeviceRowView>, folders: Seq<FolderRowView>) -> ClusterConfigView {
    ClusterConfigView {
        folders: folders.map_values(
            |f: FolderRowView| folder_of(f, devices_in(devices, f.id)),
        ),
    }
}

fn folder_devices(rows: &Vec<DeviceRow>, folder: &String) -> (r: Result<Vec<Device>, BadRow>)
    requires
        devices_ok(crate::views(rows@)),
    ensures
        r matches Ok(x) && crate::views(x@) == devices_in(crate::views(rows@), folder@),
{
    let ghost all = crate::views(rows@);
    let mut devices: Vec<Device> = Vec::new();
    let mut i: usize = 0;
    assert(crate::views(devices@) =~= Seq::empty());
    while i < rows.len()
        invariant
            i <= rows@.len(),
            all == crate::views(rows@),
            devices_ok(all),
            crate::views(devices@) == devices_in(all.take(i as int), folder@),
        decreases rows@.len() - i,
    {
        proof {
            assert(all.take(i + 1).drop_last() =~= all.take(i as int));
            assert(all.take(i + 1).last() == rows@[i as int]@);
            assert(device_of(all[i as int]) is Some);
        }
        if rows[i].folder == *folder {
            let device = make_device(&rows[i])?;
            proof {
                crate::lemma_views_push(devices@, device);
            }
            devices.push(device);
        }
        i += 1;
    }
    assert(all.take(all.len() as int) =~= all);
    Ok(devices)
}

/// The cluster that rows stand for.
pub fn read_cluster_config(devices: &Vec<DeviceRow>, folders: &Vec<FolderRow>) -> (r: Result<
    ClusterConfig,
    BadRow,
>)
    ensures
        if devices_ok(crate::views(devices@)) {
            r matches Ok(x) && x@ == cluster_of(crate::views(devices@), crate::views(folders@))
        } else {
            r == Err::<ClusterConfig, BadRow>(BadRow)
        },
        r matches Ok(x) ==> x@.folders.len() == folders@.len() && forall|i: int|
            0 <= i < folders@.len() ==> crate::laws::reading::has_its_devices(
                #[trigger] x@.folders[i],
                folders@[i]@,
                crate::views(devices@),
            ),
{
    let ghost ds = crate::views(devices@);
    let mut i: usize = 0;
    while i < devices.len()
        invariant
            i <= devices@.len(),
            ds == crate::views(devices@),
            forall|j: int| 0 <= j < i ==> device_of(#[trigger] ds[j]) is Some,
        decreases devices@.len() - i,
    {
        assert(ds[i as int] == devices@[i as int]@);
        if make_device(&devices[i]).is_err() {
            return Err(BadRow);
        }
        i += 1;
    }
    let mut out: Vec<Folder> = Vec::new();
    let mut k: usize = 0;
    while k < folders.len()
        invariant
            k <= folders@.len(),
            devices_ok(crate::views(devices@)),
            out@.len() == k,
            forall|j: int|
                0 <= j < k ==> (#[trigger] out@[j])@ == folder_of(
                    folders@[j]@,
                    devices_in(crate::views(devices@), folders@[j]@.id),
                ),
        decreases folders@.len() - k,
    {
        let shared = folder_devices(devices, &folders[k].id)?;
        out.push(make_folder(&folders[k], shared));
        k += 1;
    }
    let r = ClusterConfig { folders: out };
    assert(r@.folders =~= cluster_of(crate::views(devices@), crate::views(folders@)).folders);
    proof {
        crate::laws::reading::law_devices_of_their_folders(
            crate::views(devices@),
            crate::views(folders@),
        );
    }
    Ok(r)
}

proof fn lemma_comma_at(s: Seq<char>)
    ensures
        comma_at(s) <= s.len(),
        comma_at(s) < s.len() ==> s[comma_at(s) as int] == ',',
        forall|i: int| 0 <= i < comma_at(s) ==> #[trigger] s[i] != ',',
    decreases s.len(),
{
    if s.len() > 0 && s[0] != ',' {
        lemma_comma_at(s.skip(1));
        assert forall|i: int| 0 <= i < comma_at(s) implies #[trigger] s[i] != ',' by {
            if i > 0 {
                assert(s.skip(1)[i - 1] == s[i]);
            }
        }
    }
}

/// The first comma of a text is where no comma is before it.
proof fn lemma_comma_is_at(s: Seq<char>, n: int)
    requires
        0 <= n <= s.len(),
        n < s.len() ==> s[n] == ',',
        forall|i: int| 0 <= i < n ==> #[trigger] s[i] != ',',
    ensures
        comma_at(s) == n,
{
    lemma_comma_at(s);
    let m = comma_at(s) as int;
    if m < n {
        assert(s[m] == ',');
    } else if n < m {
        assert(s[n] != ',');
    }
}

/// A part that is put behind a comma is the last part.
proof fn lemma_comma_parts_push(a: Seq<char>, b: Seq<char>)
    requires
        !b.contains(','),
    ensures
        comma_parts(a + seq![','] + b) == comma_parts(a).push(b),
    decreases a.len(),
{
    let s = a + seq![','] + b;
    let n = comma_at(a) as int;
    lemma_comma_at(a);
    assert forall|i: int| 0 <= i < n implies #[trigger] s[i] != ',' by {
        assert(s[i] == a[i]);
    }
    lemma_comma_is_at(s, n);
    if n < a.len() {
        lemma_comma_parts_push(a.skip(n + 1), b);
        assert(s.take(n) =~= a.take(n));
        assert(s.skip(n + 1) =~= a.skip(n + 1) + seq![','] + b);
        let rest = comma_parts(a.skip(n + 1));
        assert(seq![a.take(n)] + rest.push(b) =~= (seq![a.take(n)] + rest).push(b));
    } else {
        assert(s.take(n) =~= a);
        assert(s.skip(n + 1) =~= b);
        assert forall|i: int| 0 <= i < b.len() implies #[trigger] b[i] != ',' by {
            assert(b.contains(b[i]));
        }
        lemma_comma_is_at(b, b.len() as int);
        assert(comma_parts(b) == seq![b]);
        assert(comma_parts(a) == seq![a]);
        assert(seq![a] + seq![b] =~= seq![a].push(b));
    }
}

/// Addresses that have no comma in them are read back as they were written, if there
/// are any.
pub proof fn law_addresses_round_trip(addresses: Seq<Seq<char>>)
    requires
        addresses.len() > 0,
        forall|i: int| 0 <= i < addresses.len() ==> !(#[trigger] addresses[i]).contains(','),
    ensures
        comma_parts(comma_joined(addresses)) == addresses,
    decreases addresses.len(),
{
    if addresses.len() == 1 {
        let a = addresses[0];
        assert forall|i: int| 0 <= i < a.len() implies #[trigger] a[i] != ',' by {
            assert(a.contains(a[i]));
        }
        lemma_comma_is_at(a, a.len() as int);
        assert(seq![a] =~= addresses);
    } else {
        let front = addresses.drop_last();
        law_addresses_round_trip(front);
        assert(!addresses[addresses.len() - 1].contains(','));
        lemma_comma_parts_push(comma_joined(front), addresses.last());
        assert(front.push(addresses.last()) =~= addresses);
    }
}

} // verus!
